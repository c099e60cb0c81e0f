//! A two-pass assembler for a 16-bit educational computer.
//!
//! The library turns the lines of an assembly source program into 16-bit
//! machine words rendered as strings of `0` and `1`. It is organised as:
//!
//! * [`parser`] — strips comments and blank lines, classifies each remaining
//!   line as an address, compute or label instruction, and splits compute
//!   instructions into their destination, computation and jump fields;
//! * [`code`] — maps mnemonic fields to their fixed bit patterns and converts
//!   decimal literals to 16-bit binary strings;
//! * [`binary`] — renders numbers as fixed-width binary strings;
//! * [`symbol_table`] — maps symbol names to addresses, pre-seeded with the
//!   architecture's register and device names, and allocates fresh addresses
//!   for user variables;
//! * [`assembler`] — the two-pass driver: pass one binds labels to
//!   program-counter values, pass two resolves symbols and encodes every
//!   instruction in source order.

use vstd::prelude::*;

pub mod assembler;
pub mod binary;
pub mod code;
pub mod parser;
pub mod symbol_table;

verus! {

/// The fatal error kinds of an assembly run. Every error aborts the whole
/// run; no partial output is produced.
#[derive(Debug, Clone, Copy, PartialEq, Eq, Structural)]
pub enum AsmError {
    /// A compute line holds neither a usable `=` nor a usable `;`, or a
    /// label line is missing its closing parenthesis.
    MalformedInstruction,
    /// A destination, computation or jump field outside its fixed set.
    UnknownMnemonic,
    /// A symbol was looked up that was never bound.
    EntryNotFound,
    /// A decimal literal that does not fit in 16 bits.
    InvalidLiteral,
}

} // verus!
