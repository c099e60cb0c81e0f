//! The two-pass driver.
//!
//! Pass one ([`Assembler::first_path`]) scans the instruction lines with a
//! program counter that counts only address and compute instructions, and
//! binds each label to the counter's value at the point it is reached. Pass
//! two ([`Assembler::second_path`]) scans again: compute instructions encode
//! to `111` followed by their computation, destination and jump codes;
//! address instructions encode a decimal literal directly, emit the bound
//! address of a known symbol, or allocate a fresh variable address for an
//! unseen one. The passes are specified by [`pass1_st`] and [`pass2_st`],
//! and the whole pipeline by [`assemble_spec`].

use crate::binary::addr_string;
use crate::binary::bits;
use crate::binary::encode_address;
use crate::code::comp_code;
use crate::code::comp_to_binary;
use crate::code::dec_val;
use crate::code::decimal_to_binary;
use crate::code::dest_code;
use crate::code::dest_to_binary;
use crate::code::is_digits;
use crate::code::jump_code;
use crate::code::jump_to_binary;
use crate::parser::a_symbol;
use crate::parser::c_fields;
use crate::parser::clean_lines;
use crate::parser::cmd_wf;
use crate::parser::kind_of;
use crate::parser::l_symbol;
use crate::parser::label_wf;
use crate::parser::CommandType;
use crate::parser::Parser;
use crate::symbol_table::predefined_map;
use crate::symbol_table::SymbolTable;
use crate::symbol_table::VAR_BASE;
use crate::AsmError;
use vstd::prelude::*;

verus! {

/// The symbol table and program counter after pass one has processed the
/// first `n` instruction lines, starting from table `st0`: every label seen
/// is bound to the count of address and compute lines before it.
pub open spec fn pass1_st(cs: Seq<Seq<char>>, n: int, st0: Map<Seq<char>, Seq<char>>) -> (
    Map<Seq<char>, Seq<char>>,
    nat,
)
    decreases n,
{
    if n <= 0 {
        (st0, 0)
    } else {
        let (st, pc) = pass1_st(cs, n - 1, st0);
        let s = cs[n - 1];
        match kind_of(s) {
            None => (st, pc),
            Some(CommandType::Lcommand) => (st.insert(l_symbol(s), addr_string(pc)), pc),
            Some(_) => (st, pc + 1),
        }
    }
}

/// Whether each of the first `n` instruction lines parses.
pub open spec fn all_wf(cs: Seq<Seq<char>>, n: int) -> bool {
    forall|i: int| 0 <= i < n ==> cmd_wf(#[trigger] cs[i])
}

/// The 16-bit word of a compute instruction: three leading ones, then the
/// computation, destination and jump codes.
pub open spec fn c_word(s: Seq<char>) -> Seq<char>
    recommends
        c_fields(s) is Some,
{
    let f = c_fields(s)->Some_0;
    seq!['1', '1', '1'] + bits(comp_code(Some(f.1)) as nat, 7) + bits(dest_code(f.0) as nat, 3)
        + bits(jump_code(f.2) as nat, 3)
}

/// Why pass two rejects an instruction line, if it does: a line that does
/// not parse is malformed; a mnemonic outside its fixed set is unknown; a
/// decimal literal beyond 16 bits is invalid.
pub open spec fn cmd_err(s: Seq<char>) -> Option<AsmError> {
    match kind_of(s) {
        None => None,
        Some(CommandType::Acommand) => if is_digits(a_symbol(s)) && dec_val(a_symbol(s)) > 0xffff {
            Some(AsmError::InvalidLiteral)
        } else {
            None
        },
        Some(CommandType::Lcommand) => if label_wf(s) {
            None
        } else {
            Some(AsmError::MalformedInstruction)
        },
        Some(CommandType::Ccommand) => match c_fields(s) {
            None => Some(AsmError::MalformedInstruction),
            Some(f) => if dest_code(f.0) < 0 || comp_code(Some(f.1)) < 0 || jump_code(f.2) < 0 {
                Some(AsmError::UnknownMnemonic)
            } else {
                None
            },
        },
    }
}

/// Whether pass two accepts each of the first `n` instruction lines.
pub open spec fn all_ok(cs: Seq<Seq<char>>, n: int) -> bool {
    forall|i: int| 0 <= i < n ==> cmd_err(#[trigger] cs[i]) is None
}

/// The error of the first rejected line among the first `n`, if any.
pub open spec fn first_err(cs: Seq<Seq<char>>, n: int) -> Option<AsmError>
    decreases n,
{
    if n <= 0 {
        None
    } else if first_err(cs, n - 1) is Some {
        first_err(cs, n - 1)
    } else {
        cmd_err(cs[n - 1])
    }
}

/// The table, variable cursor and output words after pass two has processed
/// the first `n` instruction lines from table `st0` and cursor `cur0`.
/// Labels emit nothing; compute lines append their word; address lines
/// resolve their symbol, allocating an unseen variable at the cursor.
pub open spec fn pass2_st(
    cs: Seq<Seq<char>>,
    n: int,
    st0: Map<Seq<char>, Seq<char>>,
    cur0: nat,
) -> (Map<Seq<char>, Seq<char>>, nat, Seq<Seq<char>>)
    decreases n,
{
    if n <= 0 {
        (st0, cur0, Seq::empty())
    } else {
        let (st, cur, out) = pass2_st(cs, n - 1, st0, cur0);
        let s = cs[n - 1];
        match kind_of(s) {
            None => (st, cur, out),
            Some(CommandType::Lcommand) => (st, cur, out),
            Some(CommandType::Ccommand) => (st, cur, out.push(c_word(s))),
            Some(CommandType::Acommand) => {
                let sym = a_symbol(s);
                if is_digits(sym) {
                    (st, cur, out.push(bits(dec_val(sym), 16)))
                } else if st.dom().contains(sym) {
                    (st, cur, out.push(st[sym]))
                } else {
                    (st.insert(sym, addr_string(cur)), cur + 1, out.push(addr_string(cur)))
                }
            },
        }
    }
}

/// Both passes over a cleaned instruction stream: pass one binds the
/// labels, pass two resolves symbols and encodes from cursor `cur0`.
pub open spec fn run_passes_from(cs: Seq<Seq<char>>, st0: Map<Seq<char>, Seq<char>>, cur0: nat) -> (
    Map<Seq<char>, Seq<char>>,
    nat,
    Seq<Seq<char>>,
) {
    pass2_st(cs, cs.len() as int, pass1_st(cs, cs.len() as int, st0).0, cur0)
}

/// One full assembly run over the raw source lines: the word of every
/// address and compute instruction in source order, or the first error.
/// Malformed lines abort in pass one, before any encoding error is seen.
pub open spec fn assemble_spec(lines: Seq<Seq<char>>) -> Result<Seq<Seq<char>>, AsmError> {
    let cs = clean_lines(lines);
    if !all_wf(cs, cs.len() as int) {
        Err(AsmError::MalformedInstruction)
    } else if !all_ok(cs, cs.len() as int) {
        Err(first_err(cs, cs.len() as int)->Some_0)
    } else {
        Ok(run_passes_from(cs, predefined_map(), VAR_BASE as nat).2)
    }
}

/// A sequence a vector views to is never longer than `usize` can count.
proof fn lemma_vec_len_bound<T>(v: &Vec<T>)
    ensures
        v@.len() <= usize::MAX,
{
    assert(v@.len() == vstd::std_specs::vec::spec_vec_len(v));
}

/// Assembles one program: a parser over its instruction lines, the symbol
/// table, the program counter of pass one, and the words produced so far.
pub struct Assembler {
    pub parser: Parser,
    pub symbol_table: SymbolTable,
    pub rom_address: usize,
    pub result: Vec<String>,
}

impl Assembler {
    /// A fresh run over the raw source lines: cleaned instructions, the
    /// predefined symbol table, and nothing yet produced.
    pub fn new(lines: Vec<String>) -> (r: Assembler)
        ensures
            r.parser.wf(),
            r.symbol_table.wf(),
            r.parser.commands.deep_view() == clean_lines(lines.deep_view()),
            r.parser.index == 0,
            r.rom_address == 0,
            r.result.deep_view() == Seq::<Seq<char>>::empty(),
            r.symbol_table@ == predefined_map(),
            r.symbol_table.ram_address == VAR_BASE,
    {
        let parser = Parser::new(lines);
        let symbol_table = SymbolTable::new();
        let r = Assembler { parser, symbol_table, rom_address: 0, result: Vec::new() };
        proof {
            assert(r.result.deep_view() =~= Seq::<Seq<char>>::empty());
        }
        r
    }

    /// Pass one: binds every label to the program counter's value at the
    /// point it is reached, counting only address and compute lines. Aborts
    /// with the first malformed line.
    pub fn first_path(&mut self) -> (r: Result<(), AsmError>)
        requires
            old(self).parser.wf(),
            old(self).parser.index == 0,
            old(self).rom_address == 0,
            old(self).symbol_table.wf(),
        ensures
            final(self).parser.wf(),
            final(self).symbol_table.wf(),
            final(self).parser.commands == old(self).parser.commands,
            final(self).result == old(self).result,
            final(self).symbol_table.ram_address == old(self).symbol_table.ram_address,
            ({
                let cs = old(self).parser.commands.deep_view();
                let st0 = old(self).symbol_table@;
                &&& all_wf(cs, cs.len() as int) ==> {
                    &&& r == Ok::<(), AsmError>(())
                    &&& final(self).symbol_table@ == pass1_st(cs, cs.len() as int, st0).0
                    &&& final(self).rom_address == pass1_st(cs, cs.len() as int, st0).1
                    &&& final(self).parser.index == cs.len()
                    &&& final(self).parser.wf()
                }
                &&& !all_wf(cs, cs.len() as int) ==> r == Err::<(), AsmError>(
                    AsmError::MalformedInstruction,
                )
            }),
    {
        let ghost cs = self.parser.commands.deep_view();
        let ghost st0 = self.symbol_table@;
        proof {
            lemma_vec_len_bound(&self.parser.commands);
        }
        while self.parser.has_more_commands
            invariant
                self.parser.wf(),
                self.symbol_table.wf(),
                self.parser.commands == old(self).parser.commands,
                self.result == old(self).result,
                self.symbol_table.ram_address == old(self).symbol_table.ram_address,
                cs == self.parser.commands.deep_view(),
                st0 == old(self).symbol_table@,
                cs.len() <= usize::MAX,
                all_wf(cs, self.parser.index as int),
                self.parser.index <= cs.len(),
                self.symbol_table@ == pass1_st(cs, self.parser.index as int, st0).0,
                self.rom_address == pass1_st(cs, self.parser.index as int, st0).1,
                pass1_st(cs, self.parser.index as int, st0).1 <= self.parser.index,
            decreases cs.len() - self.parser.index,
        {
            let ghost i = self.parser.index as int;
            match self.parser.advance() {
                Err(e) => {
                    proof {
                        assert(!cmd_wf(cs[i]));
                        assert(!all_wf(cs, cs.len() as int));
                    }
                    return Err(e);
                },
                Ok(()) => {},
            }
            match self.parser.command_type {
                None => {},
                Some(CommandType::Lcommand) => {
                    let symbol: String = match &self.parser.symbol {
                        Some(s) => s.clone(),
                        None => unreached(),
                    };
                    let address = encode_address(self.rom_address);
                    self.symbol_table.add_entry(symbol, Some(address));
                },
                Some(_) => {
                    self.rom_address = self.rom_address + 1;
                },
            }
            proof {
                assert(self.symbol_table@ == pass1_st(cs, i + 1, st0).0);
                assert(self.rom_address == pass1_st(cs, i + 1, st0).1);
            }
        }
        Ok(())
    }

    /// Pass two: encodes every address and compute instruction in source
    /// order, appending one word each to the output. Labels emit nothing.
    /// Aborts with the first error.
    pub fn second_path(&mut self) -> (r: Result<(), AsmError>)
        requires
            old(self).parser.wf(),
            old(self).parser.index == 0,
            old(self).symbol_table.wf(),
            old(self).symbol_table.ram_address + old(self).parser.commands@.len() <= usize::MAX,
        ensures
            final(self).parser.wf(),
            final(self).symbol_table.wf(),
            final(self).parser.commands == old(self).parser.commands,
            final(self).rom_address == old(self).rom_address,
            ({
                let cs = old(self).parser.commands.deep_view();
                let st0 = old(self).symbol_table@;
                let cur0 = old(self).symbol_table.ram_address as nat;
                &&& all_ok(cs, cs.len() as int) ==> {
                    &&& r == Ok::<(), AsmError>(())
                    &&& final(self).result.deep_view() == old(self).result.deep_view()
                        + pass2_st(cs, cs.len() as int, st0, cur0).2
                    &&& final(self).symbol_table@ == pass2_st(cs, cs.len() as int, st0, cur0).0
                    &&& final(self).symbol_table.ram_address == pass2_st(
                        cs,
                        cs.len() as int,
                        st0,
                        cur0,
                    ).1
                }
                &&& !all_ok(cs, cs.len() as int) ==> (r matches Err(e) && Some(e) == first_err(
                    cs,
                    cs.len() as int,
                ))
            }),
    {
        let ghost cs = self.parser.commands.deep_view();
        let ghost st0 = self.symbol_table@;
        let ghost cur0 = self.symbol_table.ram_address as nat;
        let ghost out0 = self.result.deep_view();
        proof {
            lemma_vec_len_bound(&self.parser.commands);
        }
        while self.parser.has_more_commands
            invariant
                self.parser.wf(),
                self.symbol_table.wf(),
                self.parser.commands == old(self).parser.commands,
                self.rom_address == old(self).rom_address,
                cs == self.parser.commands.deep_view(),
                st0 == old(self).symbol_table@,
                cur0 == old(self).symbol_table.ram_address as nat,
                out0 == old(self).result.deep_view(),
                cur0 + cs.len() <= usize::MAX,
                all_ok(cs, self.parser.index as int),
                self.parser.index <= cs.len(),
                self.symbol_table@ == pass2_st(cs, self.parser.index as int, st0, cur0).0,
                self.symbol_table.ram_address == pass2_st(
                    cs,
                    self.parser.index as int,
                    st0,
                    cur0,
                ).1,
                self.result.deep_view() == out0 + pass2_st(
                    cs,
                    self.parser.index as int,
                    st0,
                    cur0,
                ).2,
                pass2_st(cs, self.parser.index as int, st0, cur0).1 <= cur0 + self.parser.index,
            decreases cs.len() - self.parser.index,
        {
            let ghost i = self.parser.index as int;
            match self.parser.advance() {
                Err(e) => {
                    proof {
                        assert(!cmd_wf(cs[i]));
                        assert(cmd_err(cs[i]) == Some(AsmError::MalformedInstruction));
                        lemma_first_err_at(cs, i, cs.len() as int);
                        assert(!all_ok(cs, cs.len() as int));
                    }
                    return Err(e);
                },
                Ok(()) => {},
            }
            let res: Option<String> = match self.parser.command_type {
                None => None,
                Some(CommandType::Lcommand) => None,
                Some(CommandType::Ccommand) => {
                    let dest = match dest_to_binary(&self.parser.dest) {
                        Ok(d) => d,
                        Err(e) => {
                            proof {
                                assert(cmd_err(cs[i]) == Some(AsmError::UnknownMnemonic));
                                lemma_first_err_at(cs, i, cs.len() as int);
                                assert(!all_ok(cs, cs.len() as int));
                            }
                            return Err(e);
                        },
                    };
                    let comp = match comp_to_binary(&self.parser.comp) {
                        Ok(c) => c,
                        Err(e) => {
                            proof {
                                assert(cmd_err(cs[i]) == Some(AsmError::UnknownMnemonic));
                                lemma_first_err_at(cs, i, cs.len() as int);
                                assert(!all_ok(cs, cs.len() as int));
                            }
                            return Err(e);
                        },
                    };
                    let jump = match jump_to_binary(&self.parser.jump) {
                        Ok(j) => j,
                        Err(e) => {
                            proof {
                                assert(cmd_err(cs[i]) == Some(AsmError::UnknownMnemonic));
                                lemma_first_err_at(cs, i, cs.len() as int);
                                assert(!all_ok(cs, cs.len() as int));
                            }
                            return Err(e);
                        },
                    };
                    let mut word = String::from_str("111");
                    word.append(comp.as_str());
                    word.append(dest.as_str());
                    word.append(jump.as_str());
                    proof {
                        reveal_strlit("111");
                        assert(word@ =~= c_word(cs[i]));
                    }
                    Some(word)
                },
                Some(CommandType::Acommand) => {
                    match self.process_a_command() {
                        Ok(o) => o,
                        Err(e) => {
                            proof {
                                assert(cmd_err(cs[i]) == Some(e));
                                lemma_first_err_at(cs, i, cs.len() as int);
                                assert(!all_ok(cs, cs.len() as int));
                            }
                            return Err(e);
                        },
                    }
                },
            };
            match res {
                Some(line) => {
                    let ghost prev = self.result.deep_view();
                    let ghost lv = line@;
                    self.result.push(line);
                    proof {
                        assert(self.result.deep_view() =~= prev.push(lv));
                    }
                },
                None => {},
            }
            proof {
                assert(self.result.deep_view() =~= out0 + pass2_st(cs, i + 1, st0, cur0).2);
            }
        }
        Ok(())
    }

    /// Resolves one address instruction: a decimal literal encodes
    /// directly; a bound symbol emits its address; an unseen symbol is
    /// first allocated the cursor's address. Nothing is emitted when no
    /// symbol was parsed.
    fn process_a_command(&mut self) -> (r: Result<Option<String>, AsmError>)
        requires
            old(self).symbol_table.wf(),
            old(self).symbol_table.ram_address < usize::MAX,
        ensures
            final(self).parser == old(self).parser,
            final(self).rom_address == old(self).rom_address,
            final(self).result == old(self).result,
            final(self).symbol_table.wf(),
            ({
                let st0 = old(self).symbol_table@;
                let cur0 = old(self).symbol_table.ram_address as nat;
                match old(self).parser.symbol.deep_view() {
                    None => r == Ok::<Option<String>, AsmError>(None) && final(self).symbol_table
                        == old(self).symbol_table,
                    Some(sym) => {
                        &&& (is_digits(sym) && dec_val(sym) > 0xffff) ==> (r == Err::<
                            Option<String>,
                            AsmError,
                        >(AsmError::InvalidLiteral) && final(self).symbol_table == old(
                            self,
                        ).symbol_table)
                        &&& !(is_digits(sym) && dec_val(sym) > 0xffff) ==> {
                            &&& (r matches Ok(o) && o matches Some(w) && w@ == (if is_digits(sym) {
                                bits(dec_val(sym), 16)
                            } else if st0.dom().contains(sym) {
                                st0[sym]
                            } else {
                                addr_string(cur0)
                            }))
                            &&& if !is_digits(sym) && !st0.dom().contains(sym) {
                                final(self).symbol_table@ == st0.insert(sym, addr_string(cur0))
                                    && final(self).symbol_table.ram_address == cur0 + 1
                            } else {
                                final(self).symbol_table == old(self).symbol_table
                            }
                        }
                    },
                }
            }),
    {
        let symbol: String = match &self.parser.symbol {
            None => {
                return Ok(None);
            },
            Some(s) => s.clone(),
        };
        if is_all_digits(&symbol) {
            match decimal_to_binary(&symbol) {
                Ok(w) => Ok(Some(w)),
                Err(e) => Err(e),
            }
        } else if self.symbol_table.contains(symbol.clone()) {
            match self.symbol_table.get_address(symbol.as_str()) {
                Ok(a) => Ok(Some(a)),
                Err(_) => unreached(),
            }
        } else {
            self.symbol_table.add_entry(symbol.clone(), None);
            match self.symbol_table.get_address(symbol.as_str()) {
                Ok(a) => Ok(Some(a)),
                Err(_) => unreached(),
            }
        }
    }

    /// The full run: pass one, a rewind, pass two.
    pub fn parse(&mut self) -> (r: Result<(), AsmError>)
        requires
            old(self).parser.wf(),
            old(self).parser.index == 0,
            old(self).rom_address == 0,
            old(self).symbol_table.wf(),
            old(self).symbol_table.ram_address + old(self).parser.commands@.len() <= usize::MAX,
        ensures
            final(self).parser.commands == old(self).parser.commands,
            final(self).symbol_table.wf(),
            ({
                let cs = old(self).parser.commands.deep_view();
                let st0 = old(self).symbol_table@;
                let cur0 = old(self).symbol_table.ram_address as nat;
                &&& all_ok(cs, cs.len() as int) ==> {
                    &&& r == Ok::<(), AsmError>(())
                    &&& final(self).result.deep_view() == old(self).result.deep_view()
                        + run_passes_from(cs, st0, cur0).2
                    &&& final(self).symbol_table@ == run_passes_from(cs, st0, cur0).0
                    &&& final(self).symbol_table.ram_address == run_passes_from(cs, st0, cur0).1
                }
                &&& !all_wf(cs, cs.len() as int) ==> r == Err::<(), AsmError>(
                    AsmError::MalformedInstruction,
                )
                &&& all_wf(cs, cs.len() as int) && !all_ok(cs, cs.len() as int) ==> (r matches
                    Err(e) && Some(e) == first_err(cs, cs.len() as int))
            }),
    {
        proof {
            lemma_ok_implies_wf(self.parser.commands.deep_view(), self.parser.commands@.len() as int);
        }
        match self.first_path() {
            Err(e) => {
                return Err(e);
            },
            Ok(()) => {},
        }
        self.parser.init_index();
        match self.second_path() {
            Err(e) => {
                return Err(e);
            },
            Ok(()) => {},
        }
        Ok(())
    }
}

/// Accepted lines all parse: a line pass two accepts was never malformed.
proof fn lemma_ok_implies_wf(cs: Seq<Seq<char>>, n: int)
    ensures
        all_ok(cs, n) ==> all_wf(cs, n),
{
    if all_ok(cs, n) {
        assert forall|i: int| 0 <= i < n implies cmd_wf(#[trigger] cs[i]) by {
            assert(cmd_err(cs[i]) is None);
        }
    }
}

/// A scan that rejects nothing carries no error.
proof fn lemma_first_err_none(cs: Seq<Seq<char>>, n: int)
    requires
        all_ok(cs, n),
    ensures
        first_err(cs, n) is None,
    decreases n,
{
    if n > 0 {
        lemma_first_err_none(cs, n - 1);
    }
}

/// The first rejected line decides the error of the whole scan.
proof fn lemma_first_err_at(cs: Seq<Seq<char>>, i: int, n: int)
    requires
        0 <= i < n,
        all_ok(cs, i),
        cmd_err(cs[i]) is Some,
    ensures
        first_err(cs, n) == cmd_err(cs[i]),
    decreases n,
{
    if n - 1 > i {
        lemma_first_err_at(cs, i, n - 1);
    } else {
        lemma_first_err_none(cs, i);
    }
}

/// Whether the symbol is a non-empty string of decimal digits.
fn is_all_digits(s: &String) -> (r: bool)
    ensures
        r == is_digits(s@),
{
    let n = s.as_str().unicode_len();
    if n == 0 {
        return false;
    }
    let mut i: usize = 0;
    while i < n
        invariant
            0 <= i <= n,
            n == s@.len(),
            forall|j: int| 0 <= j < i ==> crate::code::is_digit_char(#[trigger] s@[j]),
        decreases n - i,
    {
        let u: u32 = s.as_str().get_char(i) as u32;
        if u < 48 || u > 57 {
            return false;
        }
        i = i + 1;
    }
    true
}

/// Cleaning never lengthens a program.
proof fn lemma_clean_lines_len(ls: Seq<Seq<char>>)
    ensures
        clean_lines(ls).len() <= ls.len(),
    decreases ls.len(),
{
    if ls.len() > 0 {
        lemma_clean_lines_len(ls.drop_last());
    }
}

/// Assembles the raw source lines of one program into its machine words.
pub fn assemble(lines: Vec<String>) -> (r: Result<Vec<String>, AsmError>)
    requires
        lines@.len() + VAR_BASE <= usize::MAX,
    ensures
        assemble_spec(lines.deep_view()) is Ok ==> (r matches Ok(out) && out.deep_view()
            == assemble_spec(lines.deep_view())->Ok_0),
        assemble_spec(lines.deep_view()) is Err ==> (r matches Err(e) && e == assemble_spec(
            lines.deep_view(),
        )->Err_0),
{
    let ghost lv = lines.deep_view();
    proof {
        lemma_clean_lines_len(lv);
    }
    let mut assembler = Assembler::new(lines);
    match assembler.parse() {
        Ok(()) => {
            proof {
                let cs = clean_lines(lv);
                assert(Seq::<Seq<char>>::empty() + run_passes_from(
                    cs,
                    predefined_map(),
                    VAR_BASE as nat,
                ).2 =~= run_passes_from(cs, predefined_map(), VAR_BASE as nat).2);
            }
            Ok(assembler.result)
        },
        Err(e) => Err(e),
    }
}

/// The program counter of pass one counts exactly the address and compute
/// lines seen.
pub open spec fn code_count(cs: Seq<Seq<char>>, i: int) -> nat
    decreases i,
{
    if i <= 0 {
        0
    } else {
        code_count(cs, i - 1) + (if kind_of(cs[i - 1]) is Some && kind_of(cs[i - 1]) != Some(
            CommandType::Lcommand,
        ) {
            1nat
        } else {
            0nat
        })
    }
}

/// Pass one's counter equals the code-line count.
proof fn lemma_pass1_pc(cs: Seq<Seq<char>>, n: int, st0: Map<Seq<char>, Seq<char>>)
    ensures
        pass1_st(cs, n, st0).1 == code_count(cs, n),
    decreases n,
{
    if n > 0 {
        lemma_pass1_pc(cs, n - 1, st0);
    }
}

/// A label is bound to the program-counter value where it stands: the
/// count of address and compute lines before it, no matter how many label
/// lines come in between, provided no later label line rebinds the name.
pub proof fn lemma_label_address(
    cs: Seq<Seq<char>>,
    st0: Map<Seq<char>, Seq<char>>,
    i: int,
    n: int,
)
    requires
        0 <= i < n,
        kind_of(cs[i]) == Some(CommandType::Lcommand),
        forall|j: int|
            i < j < n && kind_of(#[trigger] cs[j]) == Some(CommandType::Lcommand) ==> l_symbol(
                cs[j],
            ) != l_symbol(cs[i]),
    ensures
        pass1_st(cs, n, st0).0.dom().contains(l_symbol(cs[i])),
        pass1_st(cs, n, st0).0[l_symbol(cs[i])] == addr_string(code_count(cs, i)),
    decreases n,
{
    if n - 1 == i {
        lemma_pass1_pc(cs, i, st0);
    } else {
        lemma_label_address(cs, st0, i, n - 1);
    }
}

/// Variable allocation is stable and monotone: pass two never removes or
/// changes an existing binding, and the cursor never moves backwards. So
/// the first unseen variable takes the cursor's address, the next unseen
/// one the address after it, and every later reference to either resolves
/// to the same address it was given.
pub proof fn lemma_allocation_stable(
    cs: Seq<Seq<char>>,
    n: int,
    m: int,
    st0: Map<Seq<char>, Seq<char>>,
    cur0: nat,
)
    requires
        0 <= n <= m,
    ensures
        pass2_st(cs, n, st0, cur0).1 <= pass2_st(cs, m, st0, cur0).1,
        pass2_st(cs, n, st0, cur0).0.submap_of(pass2_st(cs, m, st0, cur0).0),
    decreases m - n,
{
    let a = pass2_st(cs, n, st0, cur0).0;
    if m > n {
        lemma_allocation_stable(cs, n, m - 1, st0, cur0);
        let b = pass2_st(cs, m - 1, st0, cur0).0;
        let cur = pass2_st(cs, m - 1, st0, cur0).1;
        let c = pass2_st(cs, m, st0, cur0).0;
        assert(a.submap_of(b));
        assert(b.submap_of(c)) by {
            let s = cs[m - 1];
            if kind_of(s) == Some(CommandType::Acommand) && !is_digits(a_symbol(s))
                && !b.dom().contains(a_symbol(s)) {
                assert(c == b.insert(a_symbol(s), addr_string(cur)));
                assert forall|k: Seq<char>| #[trigger] b.dom().contains(k) implies c.dom().contains(
                    k,
                ) && b[k] == c[k] by {
                    assert(k != a_symbol(s));
                }
            } else {
                assert(c == b);
            }
        }
        assert forall|k: Seq<char>| #[trigger] a.dom().contains(k) implies c.dom().contains(k)
            && a[k] == c[k] by {
            assert(b.dom().contains(k) && a[k] == b[k]);
            assert(c.dom().contains(k) && b[k] == c[k]);
        }
    } else {
        assert(a.submap_of(a));
    }
}

/// A fresh allocation takes exactly the cursor's address and moves the
/// cursor one past it: the first unseen variable of a run gets the base
/// address, the next unseen one the address after it.
pub proof fn lemma_allocation_fresh(
    cs: Seq<Seq<char>>,
    n: int,
    st0: Map<Seq<char>, Seq<char>>,
    cur0: nat,
)
    requires
        0 <= n,
        kind_of(cs[n]) == Some(CommandType::Acommand),
        !is_digits(a_symbol(cs[n])),
        !pass2_st(cs, n, st0, cur0).0.dom().contains(a_symbol(cs[n])),
    ensures
        pass2_st(cs, n + 1, st0, cur0).0[a_symbol(cs[n])] == addr_string(
            pass2_st(cs, n, st0, cur0).1,
        ),
        pass2_st(cs, n + 1, st0, cur0).1 == pass2_st(cs, n, st0, cur0).1 + 1,
        pass2_st(cs, n + 1, st0, cur0).2.last() == addr_string(pass2_st(cs, n, st0, cur0).1),
{
}

/// Re-running the pipeline on identical input yields identical output: the
/// result is a function of the source lines alone.
pub proof fn lemma_assemble_deterministic(lines1: Seq<Seq<char>>, lines2: Seq<Seq<char>>)
    requires
        lines1 == lines2,
    ensures
        assemble_spec(lines1) == assemble_spec(lines2),
{
}


} // verus!
