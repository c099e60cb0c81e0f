//! The symbol table.
//!
//! A mapping from symbol names to addresses rendered as binary strings,
//! pre-seeded with the architecture's register, pointer and device names.
//! Labels are bound with an explicit address; a user variable is bound to
//! the next free address of the variable cursor, which starts just past the
//! register range. The table is modelled as a [`Map`] from name to address
//! ([`View`]); the entry vector keeps its keys unique ([`SymbolTable::wf`]).

use crate::binary::addr_string;
use crate::binary::bits;
use crate::binary::encode_address;
use crate::binary::encode_bits;
use crate::AsmError;
use vstd::prelude::*;

verus! {

/// The mapping an entry sequence stands for: later entries win, though a
/// well-formed table never repeats a key.
pub open spec fn assoc_map(s: Seq<(Seq<char>, Seq<char>)>) -> Map<Seq<char>, Seq<char>>
    decreases s.len(),
{
    if s.len() == 0 {
        Map::empty()
    } else {
        assoc_map(s.drop_last()).insert(s.last().0, s.last().1)
    }
}

/// No two entries share a key.
pub open spec fn unique_keys(s: Seq<(Seq<char>, Seq<char>)>) -> bool {
    forall|i: int, j: int|
        0 <= i < j < s.len() ==> (#[trigger] s[i]).0 != (#[trigger] s[j]).0
}

/// A key lies in the map exactly when some entry holds it.
proof fn lemma_assoc_contains(s: Seq<(Seq<char>, Seq<char>)>, k: Seq<char>)
    ensures
        assoc_map(s).dom().contains(k) <==> exists|i: int|
            0 <= i < s.len() && (#[trigger] s[i]).0 == k,
    decreases s.len(),
{
    if s.len() > 0 {
        lemma_assoc_contains(s.drop_last(), k);
        if s.last().0 == k {
            assert(0 <= s.len() - 1 < s.len() && (s[s.len() - 1]).0 == k);
        } else {
            if exists|i: int| 0 <= i < s.len() && (#[trigger] s[i]).0 == k {
                let i = choose|i: int| 0 <= i < s.len() && (#[trigger] s[i]).0 == k;
                assert(i < s.len() - 1);
                assert((s.drop_last()[i]).0 == k);
            }
        }
    }
}

/// With unique keys, each entry gives the map's value at its key.
proof fn lemma_assoc_value(s: Seq<(Seq<char>, Seq<char>)>, i: int)
    requires
        unique_keys(s),
        0 <= i < s.len(),
    ensures
        assoc_map(s).dom().contains(s[i].0),
        assoc_map(s)[s[i].0] == s[i].1,
    decreases s.len(),
{
    if i < s.len() - 1 {
        assert(unique_keys(s.drop_last())) by {
            assert(forall|p: int, q: int|
                0 <= p < q < s.len() - 1 ==> (#[trigger] s.drop_last()[p]).0 != (
                #[trigger] s.drop_last()[q]).0);
        }
        lemma_assoc_value(s.drop_last(), i);
        assert(s.drop_last()[i] == s[i]);
        assert(s[s.len() - 1].0 != s[i].0);
    }
}

/// Rebinding the key of entry `i` updates the map at that key.
proof fn lemma_assoc_update(s: Seq<(Seq<char>, Seq<char>)>, i: int, k: Seq<char>, v: Seq<char>)
    requires
        unique_keys(s),
        0 <= i < s.len(),
        s[i].0 == k,
    ensures
        assoc_map(s.update(i, (k, v))) == assoc_map(s).insert(k, v),
    decreases s.len(),
{
    let su = s.update(i, (k, v));
    if i == s.len() - 1 {
        assert(su.drop_last() =~= s.drop_last());
        assert(assoc_map(s.drop_last()).insert(k, s.last().1).insert(k, v) =~= assoc_map(
            s.drop_last(),
        ).insert(k, v));
    } else {
        assert(unique_keys(s.drop_last())) by {
            assert(forall|p: int, q: int|
                0 <= p < q < s.len() - 1 ==> (#[trigger] s.drop_last()[p]).0 != (
                #[trigger] s.drop_last()[q]).0);
        }
        assert(su.drop_last() =~= s.drop_last().update(i, (k, v)));
        assert(su.last() == s.last());
        lemma_assoc_update(s.drop_last(), i, k, v);
        assert(s[s.len() - 1].0 != k);
        assert(assoc_map(s.drop_last()).insert(k, v).insert(s.last().0, s.last().1) =~= assoc_map(
            s.drop_last(),
        ).insert(s.last().0, s.last().1).insert(k, v));
    }
}

/// The architecture's predefined bindings: stack and segment pointers, the
/// sixteen registers, and the two memory-mapped devices.
pub open spec fn predefined_map() -> Map<Seq<char>, Seq<char>> {
    Map::empty().insert("SP"@, bits(0, 16)).insert("LCL"@, bits(1, 16)).insert(
        "ARG"@,
        bits(2, 16),
    ).insert("THIS"@, bits(3, 16)).insert("THAT"@, bits(4, 16)).insert("R0"@, bits(0, 16)).insert(
        "R1"@,
        bits(1, 16),
    ).insert("R2"@, bits(2, 16)).insert("R3"@, bits(3, 16)).insert("R4"@, bits(4, 16)).insert(
        "R5"@,
        bits(5, 16),
    ).insert("R6"@, bits(6, 16)).insert("R7"@, bits(7, 16)).insert("R8"@, bits(8, 16)).insert(
        "R9"@,
        bits(9, 16),
    ).insert("R10"@, bits(10, 16)).insert("R11"@, bits(11, 16)).insert("R12"@, bits(12, 16)).insert(
        "R13"@,
        bits(13, 16),
    ).insert("R14"@, bits(14, 16)).insert("R15"@, bits(15, 16)).insert(
        "SCREEN"@,
        bits(16384, 16),
    ).insert("KBD"@, bits(24576, 16))
}

/// The first address past the register range, where user variables start.
pub const VAR_BASE: usize = 16;

/// Symbol bindings plus the cursor that hands out fresh variable addresses.
pub struct SymbolTable {
    pub table: Vec<(String, String)>,
    pub ram_address: usize,
}

impl View for SymbolTable {
    type V = Map<Seq<char>, Seq<char>>;

    open spec fn view(&self) -> Map<Seq<char>, Seq<char>> {
        assoc_map(self.table.deep_view())
    }
}

impl SymbolTable {
    /// The entry vector never repeats a key, so each binding is the one the
    /// map view shows.
    pub open spec fn wf(&self) -> bool {
        unique_keys(self.table.deep_view())
    }

    /// A fresh table holding exactly the predefined bindings, with the
    /// variable cursor at the base address.
    pub fn new() -> (r: SymbolTable)
        ensures
            r.wf(),
            r@ == predefined_map(),
            r.ram_address == VAR_BASE,
    {
        SymbolTable::make_predefined_symbol_table()
    }

    /// Binds `symbol`. With `Some(address)` the binding is to that address
    /// and the cursor stands still; with `None` the symbol becomes a user
    /// variable: it is bound to the cursor's address and the cursor moves
    /// on. Either way an existing binding of the symbol is replaced.
    pub fn add_entry(&mut self, symbol: String, address: Option<String>)
        requires
            old(self).wf(),
            address is None ==> old(self).ram_address < usize::MAX,
        ensures
            final(self).wf(),
            final(self).ram_address == if address is Some {
                old(self).ram_address as int
            } else {
                old(self).ram_address + 1
            },
            final(self)@ == old(self)@.insert(
                symbol@,
                match address {
                    Some(a) => a@,
                    None => addr_string(old(self).ram_address as nat),
                },
            ),
    {
        let ghost symview = symbol@;
        let addr: String = match address {
            Some(a) => a,
            None => {
                let a = encode_address(self.ram_address);
                self.ram_address = self.ram_address + 1;
                a
            },
        };
        let ghost addrview = addr@;
        let n = self.table.len();
        let mut i: usize = 0;
        while i < n
            invariant
                0 <= i <= n,
                n == self.table@.len(),
                self.table == old(self).table,
                self.ram_address == if address is Some {
                    old(self).ram_address as int
                } else {
                    old(self).ram_address + 1
                },
                symbol@ == symview,
                addr@ == addrview,
                addrview == match address {
                    Some(a) => a@,
                    None => addr_string(old(self).ram_address as nat),
                },
                old(self).wf(),
                forall|j: int|
                    0 <= j < i ==> (#[trigger] self.table.deep_view()[j]).0 != symview,
            decreases n - i,
        {
            if self.table[i].0 == symbol {
                let ghost olddv = self.table.deep_view();
                self.table[i] = (symbol, addr);
                proof {
                    assert(self.table.deep_view() =~= olddv.update(i as int, (symview, addrview)));
                    lemma_assoc_update(olddv, i as int, symview, addrview);
                    assert(olddv[i as int].0 == symview);
                    assert forall|p: int, q: int|
                        0 <= p < q < self.table.deep_view().len() implies (
                    #[trigger] self.table.deep_view()[p]).0 != (
                    #[trigger] self.table.deep_view()[q]).0 by {
                        assert((self.table.deep_view()[p]).0 == (olddv[p]).0);
                        assert((self.table.deep_view()[q]).0 == (olddv[q]).0);
                    }
                }
                return ;
            }
            i = i + 1;
        }
        let ghost olddv = self.table.deep_view();
        self.table.push((symbol, addr));
        proof {
            assert(self.table.deep_view() =~= olddv.push((symview, addrview)));
            assert(self.table.deep_view().drop_last() =~= olddv);
            assert(unique_keys(self.table.deep_view())) by {
                assert(forall|j: int|
                    0 <= j < olddv.len() ==> (#[trigger] self.table.deep_view()[j]).0
                        == olddv[j].0);
            }
        }
    }

    /// Whether `symbol` is bound.
    pub fn contains(&self, symbol: String) -> (r: bool)
        ensures
            r == self@.dom().contains(symbol@),
    {
        proof {
            lemma_assoc_contains(self.table.deep_view(), symbol@);
        }
        let n = self.table.len();
        let mut i: usize = 0;
        while i < n
            invariant
                0 <= i <= n,
                n == self.table@.len(),
                forall|j: int|
                    0 <= j < i ==> (#[trigger] self.table.deep_view()[j]).0 != symbol@,
            decreases n - i,
        {
            if self.table[i].0 == symbol {
                proof {
                    assert((self.table.deep_view()[i as int]).0 == symbol@);
                    lemma_assoc_contains(self.table.deep_view(), symbol@);
                }
                return true;
            }
            i = i + 1;
        }
        false
    }

    /// The address bound to `symbol`, or an entry-not-found error when the
    /// symbol was never bound.
    pub fn get_address(&self, symbol: &str) -> (r: Result<String, AsmError>)
        requires
            self.wf(),
        ensures
            self@.dom().contains(symbol@) ==> (r matches Ok(a) && a@ == self@[symbol@]),
            !self@.dom().contains(symbol@) ==> r == Err::<String, AsmError>(
                AsmError::EntryNotFound,
            ),
    {
        proof {
            lemma_assoc_contains(self.table.deep_view(), symbol@);
        }
        let sym = symbol.to_owned();
        let n = self.table.len();
        let mut i: usize = 0;
        while i < n
            invariant
                0 <= i <= n,
                n == self.table@.len(),
                sym@ == symbol@,
                self.wf(),
                forall|j: int|
                    0 <= j < i ==> (#[trigger] self.table.deep_view()[j]).0 != symbol@,
            decreases n - i,
        {
            if self.table[i].0 == sym {
                let a = self.table[i].1.clone();
                proof {
                    lemma_assoc_value(self.table.deep_view(), i as int);
                }
                return Ok(a);
            }
            i = i + 1;
        }
        Err(AsmError::EntryNotFound)
    }

    /// Builds the predefined table: the stack pointer, the four segment
    /// pointers, the registers at their own ordinals, and the screen and
    /// keyboard devices.
    fn make_predefined_symbol_table() -> (r: SymbolTable)
        ensures
            r.wf(),
            r@ == predefined_map(),
            r.ram_address == VAR_BASE,
    {
        let mut symbol_table = SymbolTable { table: Vec::new(), ram_address: VAR_BASE };
        proof {
            assert(symbol_table.table.deep_view() =~= Seq::<(Seq<char>, Seq<char>)>::empty());
        }
        symbol_table.add_entry(String::from_str("SP"), Some(encode_bits(0, 16)));
        symbol_table.add_entry(String::from_str("LCL"), Some(encode_bits(1, 16)));
        symbol_table.add_entry(String::from_str("ARG"), Some(encode_bits(2, 16)));
        symbol_table.add_entry(String::from_str("THIS"), Some(encode_bits(3, 16)));
        symbol_table.add_entry(String::from_str("THAT"), Some(encode_bits(4, 16)));
        symbol_table.add_entry(String::from_str("R0"), Some(encode_bits(0, 16)));
        symbol_table.add_entry(String::from_str("R1"), Some(encode_bits(1, 16)));
        symbol_table.add_entry(String::from_str("R2"), Some(encode_bits(2, 16)));
        symbol_table.add_entry(String::from_str("R3"), Some(encode_bits(3, 16)));
        symbol_table.add_entry(String::from_str("R4"), Some(encode_bits(4, 16)));
        symbol_table.add_entry(String::from_str("R5"), Some(encode_bits(5, 16)));
        symbol_table.add_entry(String::from_str("R6"), Some(encode_bits(6, 16)));
        symbol_table.add_entry(String::from_str("R7"), Some(encode_bits(7, 16)));
        symbol_table.add_entry(String::from_str("R8"), Some(encode_bits(8, 16)));
        symbol_table.add_entry(String::from_str("R9"), Some(encode_bits(9, 16)));
        symbol_table.add_entry(String::from_str("R10"), Some(encode_bits(10, 16)));
        symbol_table.add_entry(String::from_str("R11"), Some(encode_bits(11, 16)));
        symbol_table.add_entry(String::from_str("R12"), Some(encode_bits(12, 16)));
        symbol_table.add_entry(String::from_str("R13"), Some(encode_bits(13, 16)));
        symbol_table.add_entry(String::from_str("R14"), Some(encode_bits(14, 16)));
        symbol_table.add_entry(String::from_str("R15"), Some(encode_bits(15, 16)));
        symbol_table.add_entry(String::from_str("SCREEN"), Some(encode_bits(16384, 16)));
        symbol_table.add_entry(String::from_str("KBD"), Some(encode_bits(24576, 16)));
        symbol_table
    }
}

} // verus!
