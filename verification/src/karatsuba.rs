//! The recursive Karatsuba square-root engine: a W-bit input is normalized by
//! an even shift until its top two bits are not both zero, split into halves,
//! the upper half solved recursively (down to the 8-bit table), and the
//! partial root and remainder combined into the full root through a single
//! division-based correction step.

use crate::math::is_isqrt;
use crate::math::is_isqrt_rem;
use crate::math::lemma_exponent_fits;
use crate::math::lemma_isqrt_quarter;
use crate::math::lemma_isqrt_rem_is_isqrt;
use crate::table::isqrt_remainder_table;
use vstd::arithmetic::div_mod::lemma_fundamental_div_mod;
use vstd::arithmetic::div_mod::lemma_mod_bound;
use vstd::arithmetic::power2::lemma2_to64;
use vstd::arithmetic::power2::lemma_pow2_adds;
use vstd::arithmetic::power2::pow2;
use vstd::prelude::*;

verus! {

/// The divide-and-conquer identity: splitting off the quotient `q` of the
/// adjusted remainder by twice the partial root rewrites the whole input
/// around the square of the combined candidate `s1*t + q`.
proof fn lemma_karatsuba_identity(t: int, s1: int, r1: int, lo1: int, lo0: int, q: int, u: int)
    by (nonlinear_arith)
    requires
        r1 * t + lo1 == q * (2 * s1) + u,
    ensures
        (s1 * s1 + r1) * (t * t) + (lo1 * t + lo0) == (s1 * t + q) * (s1 * t + q) + (u * t + lo0
            - q * q),
{
}

/// With the input normalized (so that `2*s1 >= t`), the correction quotient
/// never exceeds the quarter-width bound.
proof fn lemma_karatsuba_q_bound(t: int, s1: int, r1: int, lo1: int, q: int, u: int)
    by (nonlinear_arith)
    requires
        t >= 2,
        2 * s1 >= t,
        0 <= r1 <= 2 * s1,
        0 <= lo1 < t,
        r1 * t + lo1 == q * (2 * s1) + u,
        0 <= u < 2 * s1,
        0 <= q,
    ensures
        q <= t,
{
}

/// The combined candidate is at most one too high and never too low: its
/// signed remainder lies strictly between `-2*s` and `2*s`.
proof fn lemma_karatsuba_rem_bounds(t: int, s1: int, q: int, u: int, lo0: int, s: int)
    by (nonlinear_arith)
    requires
        t >= 2,
        2 * s1 >= t,
        0 <= q <= t,
        0 <= u < 2 * s1,
        0 <= lo0 < t,
        s == s1 * t + q,
    ensures
        u * t + lo0 - q * q <= 2 * s - 1,
        u * t + lo0 - q * q >= 1 - 2 * s,
{
}

/// A root-and-remainder pair of a value at least `b*b` has root at least `b`.
proof fn lemma_rem_root_at_least(n: int, s: int, r: int, b: int)
    by (nonlinear_arith)
    requires
        is_isqrt_rem(n, s, r),
        b >= 0,
        n >= b * b,
    ensures
        s >= b,
{
}

/// A root-and-remainder pair of a value below `b*b` has root below `b`.
proof fn lemma_rem_root_below(n: int, s: int, r: int, b: int)
    by (nonlinear_arith)
    requires
        is_isqrt_rem(n, s, r),
        b >= 0,
        n < b * b,
    ensures
        s < b,
{
}

/// The 8-bit base case: a lookup in the verified root-and-remainder table.
pub fn karatsuba_isqrt_with_remainder_8(n: u8) -> (res: (u8, u8))
    ensures
        is_isqrt_rem(n as int, res.0 as int, res.1 as int),
{
    let t = isqrt_remainder_table();
    t[n as usize]
}

/// The 8-bit base case, root only.
pub fn karatsuba_isqrt_8(n: u8) -> (r: u8)
    ensures
        is_isqrt(n as int, r as int),
{
    let res = karatsuba_isqrt_with_remainder_8(n);
    proof {
        lemma_isqrt_rem_is_isqrt(n as int, res.0 as int, res.1 as int);
    }
    res.0
}

/// The 8-bit base case under its shorter alias.
pub fn karatsuba_sqrt_8(n: u8) -> (r: u8)
    ensures
        is_isqrt(n as int, r as int),
{
    karatsuba_isqrt_8(n)
}

/// The 8-bit base case with remainder, under its shorter alias.
pub fn karatsuba_sqrt_with_remainder_8(n: u8) -> (res: (u8, u8))
    ensures
        is_isqrt_rem(n as int, res.0 as int, res.1 as int),
{
    karatsuba_isqrt_with_remainder_8(n)
}

/// One halving step at width 16: the top two bits of `n` are not both zero,
/// the high byte is solved by the table, and the correction division combines
/// the halves into a root-and-remainder pair for all 16 bits.
fn isqrt_rem_16(n: u16) -> (res: (u16, u16))
    requires
        n >= 0x4000,
    ensures
        is_isqrt_rem(n as int, res.0 as int, res.1 as int),
{
    let hi: u8 = (n / 0x100) as u8;
    let lo: u16 = n % 0x100;
    let (s1, r1) = karatsuba_isqrt_with_remainder_8(hi);
    proof {
        // normalization puts the high half at or above (t/2)^2
        lemma_rem_root_at_least(hi as int, s1 as int, r1 as int, 8);
        lemma_rem_root_below(hi as int, s1 as int, r1 as int, 16);
    }
    let lo1: u16 = lo / 0x10;
    let lo0: u16 = lo % 0x10;
    let num: u16 = (r1 as u16) * 0x10 + lo1;
    let den: u16 = 2 * (s1 as u16);
    let q: u16 = num / den;
    let u: u16 = num % den;
    proof {
        lemma_fundamental_div_mod(num as int, den as int);
        lemma_mod_bound(num as int, den as int);
        assert((r1 as int) * 0x10 + lo1 as int == (q as int) * (2 * (s1 as int)) + u as int)
            by (nonlinear_arith)
            requires
                num as int == (den as int) * (q as int) + u as int,
                den as int == 2 * (s1 as int),
                num as int == (r1 as int) * 0x10 + lo1 as int,
        ;
        lemma_karatsuba_q_bound(0x10, s1 as int, r1 as int, lo1 as int, q as int, u as int);
    }
    let s: u16 = (s1 as u16) * 0x10 + q;
    proof {
        lemma_karatsuba_identity(
            0x10,
            s1 as int,
            r1 as int,
            lo1 as int,
            lo0 as int,
            q as int,
            u as int,
        );
        lemma_karatsuba_rem_bounds(0x10, s1 as int, q as int, u as int, lo0 as int, s as int);
        assert(q * q <= 0x100) by (nonlinear_arith)
            requires
                0 <= q <= 0x10,
        ;
    }
    let left: u16 = u * 0x10 + lo0;
    let qq: u16 = q * q;
    if left < qq {
        let s2: u16 = s - 1;
        let r: u16 = left + (2 * s2 + 1) - qq;
        proof {
            assert((s as int - 1) * (s as int - 1) == s as int * s as int - 2 * (s as int) + 1)
                by (nonlinear_arith);
        }
        (s2, r)
    } else {
        (s, left - qq)
    }
}

/// The full 16-bit engine. A value that fits the lower half width falls
/// through to the half-width engine; otherwise the input is normalized by an
/// even shift until its top two bits are not both zero, solved by the
/// halving step, and the root is shifted back down by half the amount.
pub fn karatsuba_isqrt_16(n: u16) -> (r: u16)
    ensures
        is_isqrt(n as int, r as int),
{
    if n < 0x100 {
        let small = karatsuba_isqrt_8(n as u8);
        return small as u16;
    }
    proof {
        lemma2_to64();
    }
    let mut m: u16 = n;
    let mut c: u32 = 0;
    let ghost mut g: int = 1;
    while m < 0x4000
        invariant
            n >= 0x100,
            g == pow2(2 * (c as nat)),
            1 <= g,
            m as int == n as int * g,
        decreases 0x1_0000 - m,
    {
        proof {
            lemma2_to64();
            assert(g <= m) by (nonlinear_arith)
                requires
                    m as int == n as int * g,
                    n >= 1,
                    g >= 1,
            ;
            lemma_exponent_fits(m as int, c as nat, 16);
            lemma_pow2_adds(2 * (c as nat), 2);
            assert(4 * (n as int * g) == n as int * (4 * g)) by (nonlinear_arith);
            g = 4 * g;
        }
        m = m * 4;
        c = c + 1;
    }
    let (s0, rem0) = isqrt_rem_16(m);
    proof {
        lemma_isqrt_rem_is_isqrt(m as int, s0 as int, rem0 as int);
    }
    let mut root: u16 = s0;
    while c > 0
        invariant
            g == pow2(2 * (c as nat)),
            1 <= g,
            is_isqrt(n as int * g, root as int),
        decreases c,
    {
        proof {
            lemma2_to64();
            lemma_pow2_adds(2 * ((c - 1) as nat), 2);
            let gq = pow2(2 * ((c - 1) as nat)) as int;
            assert(n as int * g == 4 * (n as int * gq)) by (nonlinear_arith)
                requires
                    g == 4 * gq,
            ;
            lemma_isqrt_quarter(n as int * gq, root as int);
            g = gq;
        }
        root = root / 2;
        c = c - 1;
    }
    proof {
        lemma2_to64();
        assert(n as int * 1 == n as int) by (nonlinear_arith);
    }
    root
}

/// One halving step at width 32: the top two bits of `n` are not both zero,
/// the high half is solved at width 16, and the correction division
/// combines the halves into a root-and-remainder pair for all 32 bits.
fn isqrt_rem_32(n: u32) -> (res: (u32, u32))
    requires
        n >= 0x4000_0000,
    ensures
        is_isqrt_rem(n as int, res.0 as int, res.1 as int),
{
    let hi: u16 = (n / 0x1_0000) as u16;
    let lo: u32 = n % 0x1_0000;
    let (s1, r1) = isqrt_rem_16(hi);
    proof {
        // normalization puts the high half at or above (t/2)^2
        lemma_rem_root_at_least(hi as int, s1 as int, r1 as int, 0x80);
        lemma_rem_root_below(hi as int, s1 as int, r1 as int, 0x100);
    }
    let lo1: u32 = lo / 0x100;
    let lo0: u32 = lo % 0x100;
    let num: u32 = (r1 as u32) * 0x100 + lo1;
    let den: u32 = 2 * (s1 as u32);
    let q: u32 = num / den;
    let u: u32 = num % den;
    proof {
        lemma_fundamental_div_mod(num as int, den as int);
        lemma_mod_bound(num as int, den as int);
        assert((r1 as int) * 0x100 + lo1 as int == (q as int) * (2 * (s1 as int)) + u as int)
            by (nonlinear_arith)
            requires
                num as int == (den as int) * (q as int) + u as int,
                den as int == 2 * (s1 as int),
                num as int == (r1 as int) * 0x100 + lo1 as int,
        ;
        lemma_karatsuba_q_bound(0x100, s1 as int, r1 as int, lo1 as int, q as int, u as int);
    }
    let s: u32 = (s1 as u32) * 0x100 + q;
    proof {
        lemma_karatsuba_identity(
            0x100,
            s1 as int,
            r1 as int,
            lo1 as int,
            lo0 as int,
            q as int,
            u as int,
        );
        lemma_karatsuba_rem_bounds(0x100, s1 as int, q as int, u as int, lo0 as int, s as int);
        assert(q * q <= 0x1_0000) by (nonlinear_arith)
            requires
                0 <= q <= 0x100,
        ;
    }
    let left: u32 = u * 0x100 + lo0;
    let qq: u32 = q * q;
    if left < qq {
        let s2: u32 = s - 1;
        let r: u32 = left + (2 * s2 + 1) - qq;
        proof {
            assert((s as int - 1) * (s as int - 1) == s as int * s as int - 2 * (s as int) + 1)
                by (nonlinear_arith);
        }
        (s2, r)
    } else {
        (s, left - qq)
    }
}

/// The full 32-bit engine. A value that fits the lower half width falls
/// through to the half-width engine; otherwise the input is normalized by an
/// even shift until its top two bits are not both zero, solved by the
/// halving step, and the root is shifted back down by half the amount.
pub fn karatsuba_isqrt_32(n: u32) -> (r: u32)
    ensures
        is_isqrt(n as int, r as int),
{
    if n < 0x1_0000 {
        let small = karatsuba_isqrt_16(n as u16);
        return small as u32;
    }
    proof {
        lemma2_to64();
    }
    let mut m: u32 = n;
    let mut c: u32 = 0;
    let ghost mut g: int = 1;
    while m < 0x4000_0000
        invariant
            n >= 0x1_0000,
            g == pow2(2 * (c as nat)),
            1 <= g,
            m as int == n as int * g,
        decreases 0x1_0000_0000 - m,
    {
        proof {
            lemma2_to64();
            assert(g <= m) by (nonlinear_arith)
                requires
                    m as int == n as int * g,
                    n >= 1,
                    g >= 1,
            ;
            lemma_exponent_fits(m as int, c as nat, 32);
            lemma_pow2_adds(2 * (c as nat), 2);
            assert(4 * (n as int * g) == n as int * (4 * g)) by (nonlinear_arith);
            g = 4 * g;
        }
        m = m * 4;
        c = c + 1;
    }
    let (s0, rem0) = isqrt_rem_32(m);
    proof {
        lemma_isqrt_rem_is_isqrt(m as int, s0 as int, rem0 as int);
    }
    let mut root: u32 = s0;
    while c > 0
        invariant
            g == pow2(2 * (c as nat)),
            1 <= g,
            is_isqrt(n as int * g, root as int),
        decreases c,
    {
        proof {
            lemma2_to64();
            lemma_pow2_adds(2 * ((c - 1) as nat), 2);
            let gq = pow2(2 * ((c - 1) as nat)) as int;
            assert(n as int * g == 4 * (n as int * gq)) by (nonlinear_arith)
                requires
                    g == 4 * gq,
            ;
            lemma_isqrt_quarter(n as int * gq, root as int);
            g = gq;
        }
        root = root / 2;
        c = c - 1;
    }
    proof {
        lemma2_to64();
        assert(n as int * 1 == n as int) by (nonlinear_arith);
    }
    root
}

/// One halving step at width 64: the top two bits of `n` are not both zero,
/// the high half is solved at width 32, and the correction division
/// combines the halves into a root-and-remainder pair for all 64 bits.
fn isqrt_rem_64(n: u64) -> (res: (u64, u64))
    requires
        n >= 0x4000_0000_0000_0000,
    ensures
        is_isqrt_rem(n as int, res.0 as int, res.1 as int),
{
    let hi: u32 = (n / 0x1_0000_0000) as u32;
    let lo: u64 = n % 0x1_0000_0000;
    let (s1, r1) = isqrt_rem_32(hi);
    proof {
        // normalization puts the high half at or above (t/2)^2
        lemma_rem_root_at_least(hi as int, s1 as int, r1 as int, 0x8000);
        lemma_rem_root_below(hi as int, s1 as int, r1 as int, 0x1_0000);
    }
    let lo1: u64 = lo / 0x1_0000;
    let lo0: u64 = lo % 0x1_0000;
    let num: u64 = (r1 as u64) * 0x1_0000 + lo1;
    let den: u64 = 2 * (s1 as u64);
    let q: u64 = num / den;
    let u: u64 = num % den;
    proof {
        lemma_fundamental_div_mod(num as int, den as int);
        lemma_mod_bound(num as int, den as int);
        assert((r1 as int) * 0x1_0000 + lo1 as int == (q as int) * (2 * (s1 as int)) + u as int)
            by (nonlinear_arith)
            requires
                num as int == (den as int) * (q as int) + u as int,
                den as int == 2 * (s1 as int),
                num as int == (r1 as int) * 0x1_0000 + lo1 as int,
        ;
        lemma_karatsuba_q_bound(0x1_0000, s1 as int, r1 as int, lo1 as int, q as int, u as int);
    }
    let s: u64 = (s1 as u64) * 0x1_0000 + q;
    proof {
        lemma_karatsuba_identity(
            0x1_0000,
            s1 as int,
            r1 as int,
            lo1 as int,
            lo0 as int,
            q as int,
            u as int,
        );
        lemma_karatsuba_rem_bounds(0x1_0000, s1 as int, q as int, u as int, lo0 as int, s as int);
        assert(q * q <= 0x1_0000_0000) by (nonlinear_arith)
            requires
                0 <= q <= 0x1_0000,
        ;
    }
    let left: u64 = u * 0x1_0000 + lo0;
    let qq: u64 = q * q;
    if left < qq {
        let s2: u64 = s - 1;
        let r: u64 = left + (2 * s2 + 1) - qq;
        proof {
            assert((s as int - 1) * (s as int - 1) == s as int * s as int - 2 * (s as int) + 1)
                by (nonlinear_arith);
        }
        (s2, r)
    } else {
        (s, left - qq)
    }
}

/// The full 64-bit engine. A value that fits the lower half width falls
/// through to the half-width engine; otherwise the input is normalized by an
/// even shift until its top two bits are not both zero, solved by the
/// halving step, and the root is shifted back down by half the amount.
pub fn karatsuba_isqrt_64(n: u64) -> (r: u64)
    ensures
        is_isqrt(n as int, r as int),
{
    if n < 0x1_0000_0000 {
        let small = karatsuba_isqrt_32(n as u32);
        return small as u64;
    }
    proof {
        lemma2_to64();
    }
    let mut m: u64 = n;
    let mut c: u32 = 0;
    let ghost mut g: int = 1;
    while m < 0x4000_0000_0000_0000
        invariant
            n >= 0x1_0000_0000,
            g == pow2(2 * (c as nat)),
            1 <= g,
            m as int == n as int * g,
        decreases 0x1_0000_0000_0000_0000 - m,
    {
        proof {
            lemma2_to64();
            assert(g <= m) by (nonlinear_arith)
                requires
                    m as int == n as int * g,
                    n >= 1,
                    g >= 1,
            ;
            lemma_exponent_fits(m as int, c as nat, 64);
            lemma_pow2_adds(2 * (c as nat), 2);
            assert(4 * (n as int * g) == n as int * (4 * g)) by (nonlinear_arith);
            g = 4 * g;
        }
        m = m * 4;
        c = c + 1;
    }
    let (s0, rem0) = isqrt_rem_64(m);
    proof {
        lemma_isqrt_rem_is_isqrt(m as int, s0 as int, rem0 as int);
    }
    let mut root: u64 = s0;
    while c > 0
        invariant
            g == pow2(2 * (c as nat)),
            1 <= g,
            is_isqrt(n as int * g, root as int),
        decreases c,
    {
        proof {
            lemma2_to64();
            lemma_pow2_adds(2 * ((c - 1) as nat), 2);
            let gq = pow2(2 * ((c - 1) as nat)) as int;
            assert(n as int * g == 4 * (n as int * gq)) by (nonlinear_arith)
                requires
                    g == 4 * gq,
            ;
            lemma_isqrt_quarter(n as int * gq, root as int);
            g = gq;
        }
        root = root / 2;
        c = c - 1;
    }
    proof {
        lemma2_to64();
        assert(n as int * 1 == n as int) by (nonlinear_arith);
    }
    root
}

/// One halving step at width 128: the top two bits of `n` are not both zero,
/// the high half is solved at width 64, and the correction division
/// combines the halves into a root-and-remainder pair for all 128 bits.
fn isqrt_rem_128(n: u128) -> (res: (u128, u128))
    requires
        n >= 0x4000_0000_0000_0000_0000_0000_0000_0000,
    ensures
        is_isqrt_rem(n as int, res.0 as int, res.1 as int),
{
    let hi: u64 = (n / 0x1_0000_0000_0000_0000) as u64;
    let lo: u128 = n % 0x1_0000_0000_0000_0000;
    let (s1, r1) = isqrt_rem_64(hi);
    proof {
        // normalization puts the high half at or above (t/2)^2
        lemma_rem_root_at_least(hi as int, s1 as int, r1 as int, 0x8000_0000);
        lemma_rem_root_below(hi as int, s1 as int, r1 as int, 0x1_0000_0000);
    }
    let lo1: u128 = lo / 0x1_0000_0000;
    let lo0: u128 = lo % 0x1_0000_0000;
    let num: u128 = (r1 as u128) * 0x1_0000_0000 + lo1;
    let den: u128 = 2 * (s1 as u128);
    let q: u128 = num / den;
    let u: u128 = num % den;
    proof {
        lemma_fundamental_div_mod(num as int, den as int);
        lemma_mod_bound(num as int, den as int);
        assert((r1 as int) * 0x1_0000_0000 + lo1 as int == (q as int) * (2 * (s1 as int)) + u as int)
            by (nonlinear_arith)
            requires
                num as int == (den as int) * (q as int) + u as int,
                den as int == 2 * (s1 as int),
                num as int == (r1 as int) * 0x1_0000_0000 + lo1 as int,
        ;
        lemma_karatsuba_q_bound(0x1_0000_0000, s1 as int, r1 as int, lo1 as int, q as int, u as int);
    }
    let s: u128 = (s1 as u128) * 0x1_0000_0000 + q;
    proof {
        lemma_karatsuba_identity(
            0x1_0000_0000,
            s1 as int,
            r1 as int,
            lo1 as int,
            lo0 as int,
            q as int,
            u as int,
        );
        lemma_karatsuba_rem_bounds(0x1_0000_0000, s1 as int, q as int, u as int, lo0 as int, s as int);
        assert(q * q <= 0x1_0000_0000_0000_0000) by (nonlinear_arith)
            requires
                0 <= q <= 0x1_0000_0000,
        ;
    }
    let left: u128 = u * 0x1_0000_0000 + lo0;
    let qq: u128 = q * q;
    if left < qq {
        let s2: u128 = s - 1;
        let r: u128 = left + (2 * s2 + 1) - qq;
        proof {
            assert((s as int - 1) * (s as int - 1) == s as int * s as int - 2 * (s as int) + 1)
                by (nonlinear_arith);
        }
        (s2, r)
    } else {
        (s, left - qq)
    }
}

/// The full 128-bit engine. A value that fits the lower half width falls
/// through to the half-width engine; otherwise the input is normalized by an
/// even shift until its top two bits are not both zero, solved by the
/// halving step, and the root is shifted back down by half the amount.
pub fn karatsuba_isqrt_128(n: u128) -> (r: u128)
    ensures
        is_isqrt(n as int, r as int),
{
    if n < 0x1_0000_0000_0000_0000 {
        let small = karatsuba_isqrt_64(n as u64);
        return small as u128;
    }
    proof {
        lemma2_to64();
        lemma_pow2_adds(64, 64);
    }
    let mut m: u128 = n;
    let mut c: u32 = 0;
    let ghost mut g: int = 1;
    while m < 0x4000_0000_0000_0000_0000_0000_0000_0000
        invariant
            n >= 0x1_0000_0000_0000_0000,
            g == pow2(2 * (c as nat)),
            1 <= g,
            m as int == n as int * g,
        decreases 0x1_0000_0000_0000_0000_0000_0000_0000_0000 - m,
    {
        proof {
            lemma2_to64();
        lemma_pow2_adds(64, 64);
            assert(g <= m) by (nonlinear_arith)
                requires
                    m as int == n as int * g,
                    n >= 1,
                    g >= 1,
            ;
            lemma_exponent_fits(m as int, c as nat, 128);
            lemma_pow2_adds(2 * (c as nat), 2);
            assert(4 * (n as int * g) == n as int * (4 * g)) by (nonlinear_arith);
            g = 4 * g;
        }
        m = m * 4;
        c = c + 1;
    }
    let (s0, rem0) = isqrt_rem_128(m);
    proof {
        lemma_isqrt_rem_is_isqrt(m as int, s0 as int, rem0 as int);
    }
    let mut root: u128 = s0;
    while c > 0
        invariant
            g == pow2(2 * (c as nat)),
            1 <= g,
            is_isqrt(n as int * g, root as int),
        decreases c,
    {
        proof {
            lemma2_to64();
            lemma_pow2_adds(2 * ((c - 1) as nat), 2);
            let gq = pow2(2 * ((c - 1) as nat)) as int;
            assert(n as int * g == 4 * (n as int * gq)) by (nonlinear_arith)
                requires
                    g == 4 * gq,
            ;
            lemma_isqrt_quarter(n as int * gq, root as int);
            g = gq;
        }
        root = root / 2;
        c = c - 1;
    }
    proof {
        lemma2_to64();
        assert(n as int * 1 == n as int) by (nonlinear_arith);
    }
    root
}

} // verus!
