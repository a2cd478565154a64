//! Decimal rendering of unsigned numbers as bytes.
//!
//! Trash directory names (`.Trash-1000`) and the numeric suffixes that
//! make trash file names unique both embed a number in a byte string.

use vstd::prelude::*;

verus! {

/// The decimal digit bytes of `n`, most significant first, with no
/// leading zero except for zero itself.
pub open spec fn dec_spec(n: nat) -> Seq<u8>
    decreases n,
{
    if n < 10 {
        seq![(48 + n) as u8]
    } else {
        dec_spec(n / 10).push((48 + n % 10) as u8)
    }
}

/// Renders `n` in decimal as `dec_spec` states it.
pub fn to_decimal(n: u128) -> (r: Vec<u8>)
    ensures
        r@ == dec_spec(n as nat),
    decreases n,
{
    if n < 10 {
        let mut r: Vec<u8> = Vec::new();
        r.push(48 + n as u8);
        proof {
            assert(r@ =~= dec_spec(n as nat));
        }
        r
    } else {
        let mut r = to_decimal(n / 10);
        r.push(48 + (n % 10) as u8);
        r
    }
}

/// Every digit byte of a decimal rendering is an ASCII digit.
pub proof fn lemma_dec_digits(n: nat)
    ensures
        dec_spec(n).len() >= 1,
        forall|i: int| 0 <= i < dec_spec(n).len() ==> 48 <= #[trigger] dec_spec(n)[i] <= 57,
    decreases n,
{
    if n < 10 {
    } else {
        lemma_dec_digits(n / 10);
        assert forall|i: int| 0 <= i < dec_spec(n).len() implies 48 <= #[trigger] dec_spec(n)[i]
            <= 57 by {
            if i < dec_spec(n).len() - 1 {
                assert(dec_spec(n)[i] == dec_spec(n / 10)[i]);
            }
        }
    }
}

/// Two distinct numbers render to distinct decimal byte strings.
pub proof fn lemma_dec_injective(a: nat, b: nat)
    requires
        a != b,
    ensures
        dec_spec(a) != dec_spec(b),
    decreases a + b,
{
    if a < 10 && b < 10 {
        assert(dec_spec(a)[0] != dec_spec(b)[0]);
    } else if a < 10 && b >= 10 {
        lemma_dec_digits(b / 10);
        assert(dec_spec(b).len() >= 2);
    } else if a >= 10 && b < 10 {
        lemma_dec_digits(a / 10);
        assert(dec_spec(a).len() >= 2);
    } else {
        if a % 10 != b % 10 {
            assert(dec_spec(a).last() != dec_spec(b).last());
        } else {
            assert(a / 10 != b / 10);
            lemma_dec_injective(a / 10, b / 10);
            if dec_spec(a) == dec_spec(b) {
                assert(dec_spec(a).drop_last() =~= dec_spec(a / 10));
                assert(dec_spec(b).drop_last() =~= dec_spec(b / 10));
                assert(false);
            }
        }
    }
}

} // verus!
