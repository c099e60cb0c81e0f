//! Rendering of numbers as binary strings.
//!
//! Machine words and symbol-table addresses are fixed-width binary strings.
//! The specification function [`bits`] gives the mathematical meaning of such
//! a string; [`encode_bits`] builds it.

use vstd::arithmetic::power2::lemma2_to64;
use vstd::arithmetic::power2::lemma2_to64_rest;
use vstd::arithmetic::power2::lemma_pow2_unfold;
use vstd::arithmetic::power2::pow2;
use vstd::prelude::*;

verus! {

/// The `w`-bit binary rendering of `n`: most significant bit first,
/// zero-padded on the left, truncated above `2^w`.
pub open spec fn bits(n: nat, w: nat) -> Seq<char>
    decreases w,
{
    if w == 0 {
        Seq::empty()
    } else {
        bits(n / 2, (w - 1) as nat).push(if n % 2 == 1 {
            '1'
        } else {
            '0'
        })
    }
}

pub proof fn lemma_bits_len(n: nat, w: nat)
    ensures
        bits(n, w).len() == w,
    decreases w,
{
    if w > 0 {
        lemma_bits_len(n / 2, (w - 1) as nat);
    }
}

/// The number of binary digits of `n` (one digit for zero).
pub open spec fn bit_width(n: nat) -> nat
    decreases n,
{
    if n < 2 {
        1
    } else {
        1 + bit_width(n / 2)
    }
}

/// An address rendered as a binary string: zero-padded to 16 characters,
/// wider only for values that do not fit in 16 bits.
pub open spec fn addr_string(n: nat) -> Seq<char> {
    if bit_width(n) < 16 {
        bits(n, 16)
    } else {
        bits(n, bit_width(n))
    }
}

/// Builds the `w`-bit binary string of `n`.
pub fn encode_bits(n: u64, w: usize) -> (r: String)
    ensures
        r@ == bits(n as nat, w as nat),
        r@.len() == w,
    decreases w,
{
    proof {
        lemma_bits_len(n as nat, w as nat);
    }
    if w == 0 {
        let r = String::new();
        proof {
            assert(r@ =~= bits(n as nat, 0));
        }
        r
    } else {
        let mut r = encode_bits(n / 2, w - 1);
        if n % 2 == 1 {
            r.append("1");
            proof {
                reveal_strlit("1");
                assert(r@ =~= bits(n as nat, w as nat));
            }
        } else {
            r.append("0");
            proof {
                reveal_strlit("0");
                assert(r@ =~= bits(n as nat, w as nat));
            }
        }
        r
    }
}

/// Renders a symbol-table address: 16 binary digits for any address below
/// `2^16`, the minimal binary rendering above that.
pub fn encode_address(n: usize) -> (r: String)
    ensures
        r@ == addr_string(n as nat),
        r@.len() >= 16,
{
    proof {
        lemma2_to64();
        lemma2_to64_rest();
    }
    let mut w: usize = 1;
    let mut m: usize = n;
    while m >= 2
        invariant
            bit_width(n as nat) == bit_width(m as nat) + w - 1,
            1 <= w <= 64,
            (m as nat) < pow2((65 - w) as nat),
        decreases m,
    {
        proof {
            lemma_pow2_unfold((65 - w) as nat);
            if 65 - w < 2 {
                lemma2_to64();
            }
        }
        m = m / 2;
        w = w + 1;
    }
    let width: usize = if w < 16 {
        16
    } else {
        w
    };
    proof {
        lemma_bits_len(n as nat, width as nat);
    }
    encode_bits(n as u64, width)
}

} // verus!
