//! The mathematical account of integer square roots: what it means for an
//! integer to be the floor of a real square root, and the lemmas the engines
//! share.

use vstd::arithmetic::power2::lemma_pow2_strictly_increases;
use vstd::arithmetic::power2::pow2;
use vstd::prelude::*;

verus! {

/// `r` is the integer square root of `n`: the largest integer whose square
/// does not exceed `n`. The two inequalities bracket `n` between consecutive
/// squares, which pins `r` down uniquely (see `lemma_isqrt_unique`).
pub open spec fn is_isqrt(n: int, r: int) -> bool {
    &&& 0 <= r
    &&& r * r <= n
    &&& n < (r + 1) * (r + 1)
}

/// `(s, r)` is the integer square root of `n` together with its remainder:
/// `n == s^2 + r` with `0 <= r <= 2*s`. The remainder bound forces
/// `s` to be the integer square root of `n` (see `lemma_isqrt_rem_is_isqrt`).
pub open spec fn is_isqrt_rem(n: int, s: int, r: int) -> bool {
    &&& 0 <= s
    &&& 0 <= r
    &&& r <= 2 * s
    &&& n == s * s + r
}

/// A root-and-remainder pair determines the integer square root.
pub proof fn lemma_isqrt_rem_is_isqrt(n: int, s: int, r: int)
    by (nonlinear_arith)
    requires
        is_isqrt_rem(n, s, r),
    ensures
        is_isqrt(n, s),
{
}

/// The integer square root of `n` is determined by the bracketing
/// `r^2 <= n < (r+1)^2` alone, so any two engines that establish it for the
/// same input must return the same value.
pub proof fn lemma_isqrt_unique(n: int, r1: int, r2: int)
    by (nonlinear_arith)
    requires
        is_isqrt(n, r1),
        is_isqrt(n, r2),
    ensures
        r1 == r2,
{
}

/// Exactness around perfect squares: every `n` between `k^2` and
/// `k^2 + 2k = (k+1)^2 - 1` (inclusive) has integer square root exactly `k`.
/// With `d == 0` this is the round-trip law for perfect squares.
pub proof fn lemma_isqrt_near_square(k: int, d: int, r: int)
    by (nonlinear_arith)
    requires
        0 <= k,
        0 <= d <= 2 * k,
        is_isqrt(k * k + d, r),
    ensures
        r == k,
{
}

/// The integer square root never exceeds its argument, so a root of a
/// nonnegative signed value always fits back into the signed type.
pub proof fn lemma_isqrt_le(n: int, r: int)
    by (nonlinear_arith)
    requires
        is_isqrt(n, r),
    ensures
        r <= n,
{
}

/// Undoing an even normalization shift: if `s` is the root of `4*m`, then
/// `s / 2` is the root of `m`.
pub proof fn lemma_isqrt_quarter(m: int, s: int)
    by (nonlinear_arith)
    requires
        0 <= m,
        is_isqrt(4 * m, s),
    ensures
        is_isqrt(m, s / 2),
{
}

/// An even power of two bounded by an even-width type leaves room for one
/// more base-4 digit: the engines use this to place their starting digit.
pub proof fn lemma_exponent_fits(n: int, k: nat, w: nat)
    requires
        pow2(2 * k) <= n,
        n < pow2(w),
        w % 2 == 0,
    ensures
        2 * k + 2 <= w,
        pow2(2 * k + 2) <= pow2(w),
{
    if 2 * k >= w {
        if 2 * k > w {
            lemma_pow2_strictly_increases(w, 2 * k);
        }
        assert(false);
    }
    if 2 * k + 2 < w {
        lemma_pow2_strictly_increases(2 * k + 2, w);
    }
}

} // verus!
