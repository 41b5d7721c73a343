//! The base-case table: every 8-bit value mapped to its root-and-remainder
//! pair, built in one linear pass with no division and no floating point, so
//! that it stays computable where only plain integer arithmetic exists.

use crate::math::is_isqrt_rem;
use vstd::prelude::*;

verus! {

/// Builds the table by counting: the candidate root `s` covers exactly
/// `2*s + 1` consecutive inputs (the integers in `[s*s, (s+1)*(s+1))`), so a
/// countdown from `2*s + 1` says when to step the root.
pub fn isqrt_remainder_table() -> (t: Vec<(u8, u8)>)
    ensures
        t.len() == 256,
        forall|i: int|
            0 <= i < 256 ==> is_isqrt_rem(i, (#[trigger] t[i]).0 as int, t[i].1 as int),
{
    let mut t: Vec<(u8, u8)> = Vec::new();
    let mut s: u8 = 0;
    let mut remaining: u8 = 1;
    while t.len() < 256
        invariant
            t.len() <= 256,
            s <= 15,
            remaining <= 2 * s + 1,
            t.len() < 256 ==> remaining >= 1,
            t.len() + remaining == (s + 1) * (s + 1),
            forall|i: int|
                0 <= i < t.len() ==> is_isqrt_rem(i, (#[trigger] t[i]).0 as int, t[i].1 as int),
        decreases 256 - t.len(),
    {
        let r: u8 = 2 * s + 1 - remaining;
        proof {
            assert((s + 1) * (s + 1) == s * s + 2 * s + 1) by (nonlinear_arith);
            assert(is_isqrt_rem(t.len() as int, s as int, r as int));
        }
        t.push((s, r));
        remaining = remaining - 1;
        if remaining == 0 && t.len() < 256 {
            proof {
                assert((s + 2) * (s + 2) == (s + 1) * (s + 1) + 2 * (s + 1) + 1) by (nonlinear_arith);
                assert(s < 15) by (nonlinear_arith)
                    requires
                        (s + 1) * (s + 1) == t.len(),
                        t.len() < 256,
                        0 <= s <= 15,
                ;
            }
            s = s + 1;
            remaining = 2 * s + 1;
        }
    }
    t
}

} // verus!
