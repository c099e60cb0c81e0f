//! Mnemonic encoding.
//!
//! Pure lookup tables from destination, jump and computation mnemonics to
//! their architecturally fixed bit patterns, and the conversion of decimal
//! literals to 16-bit binary strings. Each table is total over its fixed
//! finite domain; anything outside it is an [`AsmError::UnknownMnemonic`].

use crate::binary::bits;
use crate::binary::encode_bits;
use crate::AsmError;
use vstd::prelude::*;

verus! {

/// The 3-bit destination code: `-1` for a mnemonic outside the fixed set.
/// An absent destination encodes as zero.
pub open spec fn dest_code(m: Option<Seq<char>>) -> int {
    match m {
        None => 0,
        Some(s) => if s == "M"@ {
            1
        } else if s == "D"@ {
            2
        } else if s == "MD"@ {
            3
        } else if s == "A"@ {
            4
        } else if s == "AM"@ {
            5
        } else if s == "AD"@ {
            6
        } else if s == "AMD"@ {
            7
        } else {
            -1
        },
    }
}

/// The 3-bit jump code: `-1` for a mnemonic outside the fixed set.
/// An absent jump encodes as zero.
pub open spec fn jump_code(m: Option<Seq<char>>) -> int {
    match m {
        None => 0,
        Some(s) => if s == "JGT"@ {
            1
        } else if s == "JEQ"@ {
            2
        } else if s == "JGE"@ {
            3
        } else if s == "JLT"@ {
            4
        } else if s == "JNE"@ {
            5
        } else if s == "JLE"@ {
            6
        } else if s == "JMP"@ {
            7
        } else {
            -1
        },
    }
}

/// The 7-bit computation code: `-1` for a mnemonic outside the fixed set.
/// An absent computation is invalid, so `None` also gives `-1`.
pub open spec fn comp_code(m: Option<Seq<char>>) -> int {
    match m {
        None => -1,
        Some(s) => if s == "0"@ {
            0x2a
        } else if s == "1"@ {
            0x3f
        } else if s == "-1"@ {
            0x3a
        } else if s == "D"@ {
            0x0c
        } else if s == "A"@ {
            0x30
        } else if s == "M"@ {
            0x70
        } else if s == "!D"@ {
            0x0d
        } else if s == "!A"@ {
            0x31
        } else if s == "!M"@ {
            0x71
        } else if s == "-D"@ {
            0x0f
        } else if s == "-A"@ {
            0x33
        } else if s == "-M"@ {
            0x73
        } else if s == "D+1"@ {
            0x1f
        } else if s == "A+1"@ {
            0x37
        } else if s == "M+1"@ {
            0x77
        } else if s == "D-1"@ {
            0x0e
        } else if s == "A-1"@ {
            0x32
        } else if s == "M-1"@ {
            0x72
        } else if s == "D+A"@ {
            0x02
        } else if s == "D+M"@ {
            0x42
        } else if s == "D-A"@ {
            0x13
        } else if s == "D-M"@ {
            0x53
        } else if s == "A-D"@ {
            0x07
        } else if s == "M-D"@ {
            0x47
        } else if s == "D&A"@ {
            0x00
        } else if s == "D&M"@ {
            0x40
        } else if s == "D|A"@ {
            0x15
        } else if s == "D|M"@ {
            0x55
        } else {
            -1
        },
    }
}

/// String content equality against a literal.
fn streq(a: &String, b: &str) -> (r: bool)
    ensures
        r == (a@ == b@),
{
    let bs = String::from_str(b);
    *a == bs
}

/// Encodes a destination mnemonic as its 3-bit pattern.
pub fn dest_to_binary(mnemonic: &Option<String>) -> (r: Result<String, AsmError>)
    ensures
        dest_code(mnemonic.deep_view()) >= 0 ==> (r matches Ok(s) && s@ == bits(
            dest_code(mnemonic.deep_view()) as nat,
            3,
        )),
        dest_code(mnemonic.deep_view()) < 0 ==> (r matches Err(e) && e
            == AsmError::UnknownMnemonic),
{
    match mnemonic {
        None => Ok(encode_bits(0, 3)),
        Some(s) => if streq(s, "M") {
            Ok(encode_bits(1, 3))
        } else if streq(s, "D") {
            Ok(encode_bits(2, 3))
        } else if streq(s, "MD") {
            Ok(encode_bits(3, 3))
        } else if streq(s, "A") {
            Ok(encode_bits(4, 3))
        } else if streq(s, "AM") {
            Ok(encode_bits(5, 3))
        } else if streq(s, "AD") {
            Ok(encode_bits(6, 3))
        } else if streq(s, "AMD") {
            Ok(encode_bits(7, 3))
        } else {
            Err(AsmError::UnknownMnemonic)
        },
    }
}

/// Encodes a jump mnemonic as its 3-bit pattern.
pub fn jump_to_binary(mnemonic: &Option<String>) -> (r: Result<String, AsmError>)
    ensures
        jump_code(mnemonic.deep_view()) >= 0 ==> (r matches Ok(s) && s@ == bits(
            jump_code(mnemonic.deep_view()) as nat,
            3,
        )),
        jump_code(mnemonic.deep_view()) < 0 ==> (r matches Err(e) && e
            == AsmError::UnknownMnemonic),
{
    match mnemonic {
        None => Ok(encode_bits(0, 3)),
        Some(s) => if streq(s, "JGT") {
            Ok(encode_bits(1, 3))
        } else if streq(s, "JEQ") {
            Ok(encode_bits(2, 3))
        } else if streq(s, "JGE") {
            Ok(encode_bits(3, 3))
        } else if streq(s, "JLT") {
            Ok(encode_bits(4, 3))
        } else if streq(s, "JNE") {
            Ok(encode_bits(5, 3))
        } else if streq(s, "JLE") {
            Ok(encode_bits(6, 3))
        } else if streq(s, "JMP") {
            Ok(encode_bits(7, 3))
        } else {
            Err(AsmError::UnknownMnemonic)
        },
    }
}

/// Encodes a computation mnemonic as its 7-bit pattern.
pub fn comp_to_binary(mnemonic: &Option<String>) -> (r: Result<String, AsmError>)
    ensures
        comp_code(mnemonic.deep_view()) >= 0 ==> (r matches Ok(s) && s@ == bits(
            comp_code(mnemonic.deep_view()) as nat,
            7,
        )),
        comp_code(mnemonic.deep_view()) < 0 ==> (r matches Err(e) && e
            == AsmError::UnknownMnemonic),
{
    match mnemonic {
        None => Err(AsmError::UnknownMnemonic),
        Some(s) => if streq(s, "0") {
            Ok(encode_bits(0x2a, 7))
        } else if streq(s, "1") {
            Ok(encode_bits(0x3f, 7))
        } else if streq(s, "-1") {
            Ok(encode_bits(0x3a, 7))
        } else if streq(s, "D") {
            Ok(encode_bits(0x0c, 7))
        } else if streq(s, "A") {
            Ok(encode_bits(0x30, 7))
        } else if streq(s, "M") {
            Ok(encode_bits(0x70, 7))
        } else if streq(s, "!D") {
            Ok(encode_bits(0x0d, 7))
        } else if streq(s, "!A") {
            Ok(encode_bits(0x31, 7))
        } else if streq(s, "!M") {
            Ok(encode_bits(0x71, 7))
        } else if streq(s, "-D") {
            Ok(encode_bits(0x0f, 7))
        } else if streq(s, "-A") {
            Ok(encode_bits(0x33, 7))
        } else if streq(s, "-M") {
            Ok(encode_bits(0x73, 7))
        } else if streq(s, "D+1") {
            Ok(encode_bits(0x1f, 7))
        } else if streq(s, "A+1") {
            Ok(encode_bits(0x37, 7))
        } else if streq(s, "M+1") {
            Ok(encode_bits(0x77, 7))
        } else if streq(s, "D-1") {
            Ok(encode_bits(0x0e, 7))
        } else if streq(s, "A-1") {
            Ok(encode_bits(0x32, 7))
        } else if streq(s, "M-1") {
            Ok(encode_bits(0x72, 7))
        } else if streq(s, "D+A") {
            Ok(encode_bits(0x02, 7))
        } else if streq(s, "D+M") {
            Ok(encode_bits(0x42, 7))
        } else if streq(s, "D-A") {
            Ok(encode_bits(0x13, 7))
        } else if streq(s, "D-M") {
            Ok(encode_bits(0x53, 7))
        } else if streq(s, "A-D") {
            Ok(encode_bits(0x07, 7))
        } else if streq(s, "M-D") {
            Ok(encode_bits(0x47, 7))
        } else if streq(s, "D&A") {
            Ok(encode_bits(0x00, 7))
        } else if streq(s, "D&M") {
            Ok(encode_bits(0x40, 7))
        } else if streq(s, "D|A") {
            Ok(encode_bits(0x15, 7))
        } else if streq(s, "D|M") {
            Ok(encode_bits(0x55, 7))
        } else {
            Err(AsmError::UnknownMnemonic)
        },
    }
}

/// A decimal digit.
pub open spec fn is_digit_char(c: char) -> bool {
    48 <= c as u32 <= 57
}

/// The value of a decimal digit; zero outside the digit range.
pub open spec fn digit_val(c: char) -> nat {
    if is_digit_char(c) {
        ((c as u32) - 48) as nat
    } else {
        0
    }
}

/// A non-empty string of decimal digits.
pub open spec fn is_digits(s: Seq<char>) -> bool {
    s.len() > 0 && forall|i: int| 0 <= i < s.len() ==> is_digit_char(#[trigger] s[i])
}

/// The value of a string of decimal digits.
pub open spec fn dec_val(s: Seq<char>) -> nat
    decreases s.len(),
{
    if s.len() == 0 {
        0
    } else {
        dec_val(s.drop_last()) * 10 + digit_val(s.last())
    }
}

/// A decimal prefix never exceeds the value of the whole string.
proof fn lemma_dec_val_prefix(s: Seq<char>, i: int)
    requires
        0 <= i <= s.len(),
    ensures
        dec_val(s.take(i)) <= dec_val(s),
    decreases s.len() - i,
{
    if i == s.len() {
        assert(s.take(i) =~= s);
    } else {
        lemma_dec_val_prefix(s, i + 1);
        assert(s.take(i + 1).drop_last() =~= s.take(i));
        assert(dec_val(s.take(i + 1)) == dec_val(s.take(i)) * 10 + digit_val(s.take(i + 1).last()));
    }
}

/// Converts a non-negative decimal literal to its 16-bit binary string.
/// A literal that is empty, holds a non-digit, or exceeds the 16-bit range
/// is an [`AsmError::InvalidLiteral`].
pub fn decimal_to_binary(decimal: &String) -> (r: Result<String, AsmError>)
    ensures
        is_digits(decimal@) && dec_val(decimal@) <= 0xffff ==> (r matches Ok(s) && s@ == bits(
            dec_val(decimal@),
            16,
        )),
        !(is_digits(decimal@) && dec_val(decimal@) <= 0xffff) ==> (r matches Err(e) && e
            == AsmError::InvalidLiteral),
{
    let n = decimal.as_str().unicode_len();
    if n == 0 {
        return Err(AsmError::InvalidLiteral);
    }
    let mut acc: u32 = 0;
    let mut i: usize = 0;
    while i < n
        invariant
            0 <= i <= n,
            n == decimal@.len(),
            forall|j: int| 0 <= j < i ==> is_digit_char(#[trigger] decimal@[j]),
            acc == dec_val(decimal@.take(i as int)),
            acc <= 0xffff,
        decreases n - i,
    {
        let c = decimal.as_str().get_char(i);
        let u: u32 = c as u32;
        if u < 48 || u > 57 {
            return Err(AsmError::InvalidLiteral);
        }
        let next: u32 = acc * 10 + (u - 48);
        proof {
            assert(decimal@.take(i + 1).drop_last() =~= decimal@.take(i as int));
            assert(decimal@.take(i + 1).last() == decimal@[i as int]);
        }
        if next > 0xffff {
            proof {
                lemma_dec_val_prefix(decimal@, i + 1);
            }
            return Err(AsmError::InvalidLiteral);
        }
        acc = next;
        i = i + 1;
    }
    proof {
        assert(decimal@.take(n as int) =~= decimal@);
    }
    Ok(encode_bits(acc as u64, 16))
}

/// Destination encoding is a bijection between the seven register
/// combinations plus the absent case and the eight 3-bit codes: no two
/// mnemonics share a code, and the eight equations below show every code
/// taken.
pub proof fn lemma_dest_encoding_bijective()
    ensures
        forall|m1: Option<Seq<char>>, m2: Option<Seq<char>>|
            dest_code(m1) >= 0 && dest_code(m2) >= 0 && m1 != m2 ==> #[trigger] dest_code(m1)
                != #[trigger] dest_code(m2),
        dest_code(None) == 0,
        dest_code(Some("M"@)) == 1,
        dest_code(Some("D"@)) == 2,
        dest_code(Some("MD"@)) == 3,
        dest_code(Some("A"@)) == 4,
        dest_code(Some("AM"@)) == 5,
        dest_code(Some("AD"@)) == 6,
        dest_code(Some("AMD"@)) == 7,
{
    reveal_strlit("M");
    reveal_strlit("D");
    reveal_strlit("MD");
    reveal_strlit("A");
    reveal_strlit("AM");
    reveal_strlit("AD");
    reveal_strlit("AMD");
    assert("D"@ != "M"@) by {
        assert("D"@[0] != "M"@[0]);
    }
    assert("MD"@ != "M"@) by {
        assert("MD"@.len() != "M"@.len());
    }
    assert("MD"@ != "D"@) by {
        assert("MD"@.len() != "D"@.len());
    }
    assert("A"@ != "M"@) by {
        assert("A"@[0] != "M"@[0]);
    }
    assert("A"@ != "D"@) by {
        assert("A"@[0] != "D"@[0]);
    }
    assert("A"@ != "MD"@) by {
        assert("A"@.len() != "MD"@.len());
    }
    assert("AM"@ != "M"@) by {
        assert("AM"@.len() != "M"@.len());
    }
    assert("AM"@ != "D"@) by {
        assert("AM"@.len() != "D"@.len());
    }
    assert("AM"@ != "MD"@) by {
        assert("AM"@[0] != "MD"@[0]);
    }
    assert("AM"@ != "A"@) by {
        assert("AM"@.len() != "A"@.len());
    }
    assert("AD"@ != "M"@) by {
        assert("AD"@.len() != "M"@.len());
    }
    assert("AD"@ != "D"@) by {
        assert("AD"@.len() != "D"@.len());
    }
    assert("AD"@ != "MD"@) by {
        assert("AD"@[0] != "MD"@[0]);
    }
    assert("AD"@ != "A"@) by {
        assert("AD"@.len() != "A"@.len());
    }
    assert("AD"@ != "AM"@) by {
        assert("AD"@[1] != "AM"@[1]);
    }
    assert("AMD"@ != "M"@) by {
        assert("AMD"@.len() != "M"@.len());
    }
    assert("AMD"@ != "D"@) by {
        assert("AMD"@.len() != "D"@.len());
    }
    assert("AMD"@ != "MD"@) by {
        assert("AMD"@.len() != "MD"@.len());
    }
    assert("AMD"@ != "A"@) by {
        assert("AMD"@.len() != "A"@.len());
    }
    assert("AMD"@ != "AM"@) by {
        assert("AMD"@.len() != "AM"@.len());
    }
    assert("AMD"@ != "AD"@) by {
        assert("AMD"@.len() != "AD"@.len());
    }
}

/// Jump encoding is a bijection between the seven jump mnemonics plus the
/// absent case and the eight 3-bit codes: no two mnemonics share a code, and
/// the eight equations below show every code taken.
pub proof fn lemma_jump_encoding_bijective()
    ensures
        forall|m1: Option<Seq<char>>, m2: Option<Seq<char>>|
            jump_code(m1) >= 0 && jump_code(m2) >= 0 && m1 != m2 ==> #[trigger] jump_code(m1)
                != #[trigger] jump_code(m2),
        jump_code(None) == 0,
        jump_code(Some("JGT"@)) == 1,
        jump_code(Some("JEQ"@)) == 2,
        jump_code(Some("JGE"@)) == 3,
        jump_code(Some("JLT"@)) == 4,
        jump_code(Some("JNE"@)) == 5,
        jump_code(Some("JLE"@)) == 6,
        jump_code(Some("JMP"@)) == 7,
{
    reveal_strlit("JGT");
    reveal_strlit("JEQ");
    reveal_strlit("JGE");
    reveal_strlit("JLT");
    reveal_strlit("JNE");
    reveal_strlit("JLE");
    reveal_strlit("JMP");
    assert("JEQ"@ != "JGT"@) by {
        assert("JEQ"@[1] != "JGT"@[1]);
    }
    assert("JGE"@ != "JGT"@) by {
        assert("JGE"@[2] != "JGT"@[2]);
    }
    assert("JGE"@ != "JEQ"@) by {
        assert("JGE"@[1] != "JEQ"@[1]);
    }
    assert("JLT"@ != "JGT"@) by {
        assert("JLT"@[1] != "JGT"@[1]);
    }
    assert("JLT"@ != "JEQ"@) by {
        assert("JLT"@[1] != "JEQ"@[1]);
    }
    assert("JLT"@ != "JGE"@) by {
        assert("JLT"@[1] != "JGE"@[1]);
    }
    assert("JNE"@ != "JGT"@) by {
        assert("JNE"@[1] != "JGT"@[1]);
    }
    assert("JNE"@ != "JEQ"@) by {
        assert("JNE"@[1] != "JEQ"@[1]);
    }
    assert("JNE"@ != "JGE"@) by {
        assert("JNE"@[1] != "JGE"@[1]);
    }
    assert("JNE"@ != "JLT"@) by {
        assert("JNE"@[1] != "JLT"@[1]);
    }
    assert("JLE"@ != "JGT"@) by {
        assert("JLE"@[1] != "JGT"@[1]);
    }
    assert("JLE"@ != "JEQ"@) by {
        assert("JLE"@[1] != "JEQ"@[1]);
    }
    assert("JLE"@ != "JGE"@) by {
        assert("JLE"@[1] != "JGE"@[1]);
    }
    assert("JLE"@ != "JLT"@) by {
        assert("JLE"@[2] != "JLT"@[2]);
    }
    assert("JLE"@ != "JNE"@) by {
        assert("JLE"@[1] != "JNE"@[1]);
    }
    assert("JMP"@ != "JGT"@) by {
        assert("JMP"@[1] != "JGT"@[1]);
    }
    assert("JMP"@ != "JEQ"@) by {
        assert("JMP"@[1] != "JEQ"@[1]);
    }
    assert("JMP"@ != "JGE"@) by {
        assert("JMP"@[1] != "JGE"@[1]);
    }
    assert("JMP"@ != "JLT"@) by {
        assert("JMP"@[1] != "JLT"@[1]);
    }
    assert("JMP"@ != "JNE"@) by {
        assert("JMP"@[1] != "JNE"@[1]);
    }
    assert("JMP"@ != "JLE"@) by {
        assert("JMP"@[1] != "JLE"@[1]);
    }
}

/// Computation encoding is injective: no two of the defined computation
/// mnemonics share a 7-bit code.
pub proof fn lemma_comp_encoding_injective()
    ensures
        forall|m1: Option<Seq<char>>, m2: Option<Seq<char>>|
            comp_code(m1) >= 0 && comp_code(m2) >= 0 && m1 != m2 ==> #[trigger] comp_code(m1)
                != #[trigger] comp_code(m2),
{
}

} // verus!
