//! The correction stage of the floating-point engine. The hardware square
//! root itself cannot be verified, so it stays with unverified callers: they
//! convert the input to a float, take the square root, truncate, and hand the
//! candidate in as `approx`. The verified correction below walks the
//! candidate to the exact root, so the result is right for every value of
//! `approx` — a candidate off by one (the worst a rounded double can be
//! within its precision range) costs a single step. A squaring that would
//! overflow counts as "exceeds the input", never as silent wraparound.

use crate::karatsuba::karatsuba_isqrt_128;
use crate::math::is_isqrt;
use vstd::prelude::*;

verus! {

/// Whether `a * a` exceeds `n` at width 8; an overflowing square exceeds
/// every representable `n`.
fn square_exceeds_8(a: u8, n: u8) -> (b: bool)
    ensures
        b == (a as int * a as int > n as int),
{
    match a.checked_mul(a) {
        Some(sq) => sq > n,
        None => true,
    }
}

/// The 8-bit correction: clamp the candidate to the largest possible
/// root, then walk down while it overshoots and up while the next square
/// still fits.
pub fn floating_isqrt_8(n: u8, approx: u8) -> (r: u8)
    ensures
        is_isqrt(n as int, r as int),
{
    let mut root: u8 = if approx > 15 {
        15
    } else {
        approx
    };
    while root > 0 && square_exceeds_8(root, n)
        invariant
            root <= 15,
        decreases root,
    {
        root = root - 1;
    }
    while root < 15 && !square_exceeds_8(root + 1, n)
        invariant
            root <= 15,
            root as int * root as int <= n as int,
        decreases 15 - root,
    {
        root = root + 1;
    }
    proof {
        if root == 15 {
            assert((root as int + 1) * (root as int + 1) > n as int) by (nonlinear_arith)
                requires
                    root as int == 15,
                    n as int <= 0xff,
            ;
        }
    }
    root
}

/// Whether `a * a` exceeds `n` at width 16; an overflowing square exceeds
/// every representable `n`.
fn square_exceeds_16(a: u16, n: u16) -> (b: bool)
    ensures
        b == (a as int * a as int > n as int),
{
    match a.checked_mul(a) {
        Some(sq) => sq > n,
        None => true,
    }
}

/// The 16-bit correction: clamp the candidate to the largest possible
/// root, then walk down while it overshoots and up while the next square
/// still fits.
pub fn floating_isqrt_16(n: u16, approx: u16) -> (r: u16)
    ensures
        is_isqrt(n as int, r as int),
{
    let mut root: u16 = if approx > 0xff {
        0xff
    } else {
        approx
    };
    while root > 0 && square_exceeds_16(root, n)
        invariant
            root <= 0xff,
        decreases root,
    {
        root = root - 1;
    }
    while root < 0xff && !square_exceeds_16(root + 1, n)
        invariant
            root <= 0xff,
            root as int * root as int <= n as int,
        decreases 0xff - root,
    {
        root = root + 1;
    }
    proof {
        if root == 0xff {
            assert((root as int + 1) * (root as int + 1) > n as int) by (nonlinear_arith)
                requires
                    root as int == 0xff,
                    n as int <= 0xffff,
            ;
        }
    }
    root
}

/// Whether `a * a` exceeds `n` at width 32; an overflowing square exceeds
/// every representable `n`.
fn square_exceeds_32(a: u32, n: u32) -> (b: bool)
    ensures
        b == (a as int * a as int > n as int),
{
    match a.checked_mul(a) {
        Some(sq) => sq > n,
        None => true,
    }
}

/// The 32-bit correction: clamp the candidate to the largest possible
/// root, then walk down while it overshoots and up while the next square
/// still fits.
pub fn floating_isqrt_32(n: u32, approx: u32) -> (r: u32)
    ensures
        is_isqrt(n as int, r as int),
{
    let mut root: u32 = if approx > 0xffff {
        0xffff
    } else {
        approx
    };
    while root > 0 && square_exceeds_32(root, n)
        invariant
            root <= 0xffff,
        decreases root,
    {
        root = root - 1;
    }
    while root < 0xffff && !square_exceeds_32(root + 1, n)
        invariant
            root <= 0xffff,
            root as int * root as int <= n as int,
        decreases 0xffff - root,
    {
        root = root + 1;
    }
    proof {
        if root == 0xffff {
            assert((root as int + 1) * (root as int + 1) > n as int) by (nonlinear_arith)
                requires
                    root as int == 0xffff,
                    n as int <= 0xffff_ffff,
            ;
        }
    }
    root
}

/// Whether `a * a` exceeds `n` at width 64; an overflowing square exceeds
/// every representable `n`.
fn square_exceeds_64(a: u64, n: u64) -> (b: bool)
    ensures
        b == (a as int * a as int > n as int),
{
    match a.checked_mul(a) {
        Some(sq) => sq > n,
        None => true,
    }
}

/// The 64-bit correction: clamp the candidate to the largest possible
/// root, then walk down while it overshoots and up while the next square
/// still fits.
/// Here the candidate from a double-precision square root can actually be
/// off by one, because inputs above the 53-bit mantissa range share a
/// representative float.
pub fn floating_isqrt_64(n: u64, approx: u64) -> (r: u64)
    ensures
        is_isqrt(n as int, r as int),
{
    let mut root: u64 = if approx > 0xffff_ffff {
        0xffff_ffff
    } else {
        approx
    };
    while root > 0 && square_exceeds_64(root, n)
        invariant
            root <= 0xffff_ffff,
        decreases root,
    {
        root = root - 1;
    }
    while root < 0xffff_ffff && !square_exceeds_64(root + 1, n)
        invariant
            root <= 0xffff_ffff,
            root as int * root as int <= n as int,
        decreases 0xffff_ffff - root,
    {
        root = root + 1;
    }
    proof {
        if root == 0xffff_ffff {
            assert((root as int + 1) * (root as int + 1) > n as int) by (nonlinear_arith)
                requires
                    root as int == 0xffff_ffff,
                    n as int <= 0xffff_ffff_ffff_ffff,
            ;
        }
    }
    root
}

/// The 128-bit engine. No hardware float can cover this domain, so only
/// inputs that fit 64 bits use the float-seeded correction; wider inputs
/// recurse into the Karatsuba engine, whose high half is solved by integer
/// arithmetic alone.
pub fn floating_isqrt_128(n: u128, approx: u64) -> (r: u128)
    ensures
        is_isqrt(n as int, r as int),
{
    if n < 0x1_0000_0000_0000_0000 {
        let small = floating_isqrt_64(n as u64, approx);
        small as u128
    } else {
        karatsuba_isqrt_128(n)
    }
}

} // verus!
