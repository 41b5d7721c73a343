//! Cross-engine checks: every engine must return the floor of the real
//! square root, and all engines must agree on a representative sample of
//! each width (small values, values near the maximum, and powers of two).

use isqrt::binary::{
    binary_isqrt_128, binary_isqrt_16, binary_isqrt_32, binary_isqrt_64, binary_isqrt_8,
};
use isqrt::floating::{
    floating_isqrt_128, floating_isqrt_16, floating_isqrt_32, floating_isqrt_64, floating_isqrt_8,
};
use isqrt::karatsuba::{
    karatsuba_isqrt_128, karatsuba_isqrt_16, karatsuba_isqrt_32, karatsuba_isqrt_64,
    karatsuba_isqrt_8,
};

fn samples_u8() -> Vec<u8> {
    let mut v: Vec<u8> = (0..=127u8).collect();
    v.extend(128..=255u8);
    for k in 0..8u32 {
        v.push((1u8 << k) - 1);
        v.push(1u8 << k);
    }
    v
}

fn samples_u16() -> Vec<u16> {
    let mut v: Vec<u16> = (0..=127u16).collect();
    v.extend(u16::MAX - 127..=u16::MAX);
    for k in 0..16u32 {
        v.push((1u16 << k) - 1);
        v.push(1u16 << k);
    }
    v
}

fn samples_u32() -> Vec<u32> {
    let mut v: Vec<u32> = (0..=127u32).collect();
    v.extend(u32::MAX - 127..=u32::MAX);
    for k in 0..32u32 {
        v.push((1u32 << k) - 1);
        v.push(1u32 << k);
    }
    v
}

fn samples_u64() -> Vec<u64> {
    let mut v: Vec<u64> = (0..=127u64).collect();
    v.extend(u64::MAX - 127..=u64::MAX);
    for k in 0..64u32 {
        v.push((1u64 << k) - 1);
        v.push(1u64 << k);
    }
    v
}

fn samples_u128() -> Vec<u128> {
    let mut v: Vec<u128> = (0..=127u128).collect();
    let mut x = u128::MAX - 127;
    loop {
        v.push(x);
        if x == u128::MAX {
            break;
        }
        x += 1;
    }
    for k in 0..128u32 {
        v.push((1u128 << k) - 1);
        v.push(1u128 << k);
    }
    v
}

fn check_bracket_u128(n: u128, r: u128) {
    assert!(r.checked_mul(r).map(|sq| sq <= n).unwrap_or(false), "isqrt({n}) = {r} is too high");
    assert!(
        (r + 1).checked_mul(r + 1).map(|sq| sq > n).unwrap_or(true),
        "isqrt({n}) = {r} is too low"
    );
}

#[test]
fn binary_bracketing_all_widths() {
    for n in samples_u8() {
        check_bracket_u128(n as u128, binary_isqrt_8(n) as u128);
    }
    for n in samples_u16() {
        check_bracket_u128(n as u128, binary_isqrt_16(n) as u128);
    }
    for n in samples_u32() {
        check_bracket_u128(n as u128, binary_isqrt_32(n) as u128);
    }
    for n in samples_u64() {
        check_bracket_u128(n as u128, binary_isqrt_64(n) as u128);
    }
    for n in samples_u128() {
        check_bracket_u128(n, binary_isqrt_128(n));
    }
}

#[test]
fn karatsuba_bracketing_all_widths() {
    for n in samples_u8() {
        check_bracket_u128(n as u128, karatsuba_isqrt_8(n) as u128);
    }
    for n in samples_u16() {
        check_bracket_u128(n as u128, karatsuba_isqrt_16(n) as u128);
    }
    for n in samples_u32() {
        check_bracket_u128(n as u128, karatsuba_isqrt_32(n) as u128);
    }
    for n in samples_u64() {
        check_bracket_u128(n as u128, karatsuba_isqrt_64(n) as u128);
    }
    for n in samples_u128() {
        check_bracket_u128(n, karatsuba_isqrt_128(n));
    }
}

#[test]
fn engines_agree_all_widths() {
    for n in samples_u8() {
        let b = binary_isqrt_8(n);
        assert_eq!(b, karatsuba_isqrt_8(n), "width 8 disagreement at {n}");
        assert_eq!(b, floating_isqrt_8(n, (n as f32).sqrt() as u8), "width 8 float at {n}");
    }
    for n in samples_u16() {
        let b = binary_isqrt_16(n);
        assert_eq!(b, karatsuba_isqrt_16(n), "width 16 disagreement at {n}");
        assert_eq!(b, floating_isqrt_16(n, (n as f32).sqrt() as u16), "width 16 float at {n}");
    }
    for n in samples_u32() {
        let b = binary_isqrt_32(n);
        assert_eq!(b, karatsuba_isqrt_32(n), "width 32 disagreement at {n}");
        assert_eq!(b, floating_isqrt_32(n, (n as f64).sqrt() as u32), "width 32 float at {n}");
    }
    for n in samples_u64() {
        let b = binary_isqrt_64(n);
        assert_eq!(b, karatsuba_isqrt_64(n), "width 64 disagreement at {n}");
        assert_eq!(b, floating_isqrt_64(n, (n as f64).sqrt() as u64), "width 64 float at {n}");
    }
    for n in samples_u128() {
        let b = binary_isqrt_128(n);
        assert_eq!(b, karatsuba_isqrt_128(n), "width 128 disagreement at {n}");
        let approx = if n < (1u128 << 64) { (n as f64).sqrt() as u64 } else { 0 };
        assert_eq!(b, floating_isqrt_128(n, approx), "width 128 float at {n}");
    }
}

#[test]
fn floating_correction_handles_any_candidate() {
    // The verified correction must reach the exact root from any starting
    // candidate, not only from one within a unit of the truth.
    for n in samples_u16() {
        let expected = binary_isqrt_16(n);
        assert_eq!(floating_isqrt_16(n, 0), expected);
        assert_eq!(floating_isqrt_16(n, u16::MAX), expected);
        assert_eq!(floating_isqrt_16(n, expected.wrapping_add(1)), expected);
    }
    for n in [0u64, 1, 2, 99, 10_000, u64::MAX - 1, u64::MAX] {
        let expected = binary_isqrt_64(n);
        assert_eq!(floating_isqrt_64(n, 0), expected);
        assert_eq!(floating_isqrt_64(n, u64::MAX), expected);
    }
}

fn reference_isqrt(n: u32) -> u32 {
    let mut r: u32 = 0;
    while (r + 1) * (r + 1) <= n {
        r += 1;
    }
    r
}

#[test]
fn exhaustive_width_8() {
    for n in 0..=255u8 {
        let expected = reference_isqrt(n as u32) as u8;
        assert_eq!(binary_isqrt_8(n), expected, "binary at {n}");
        assert_eq!(karatsuba_isqrt_8(n), expected, "karatsuba at {n}");
        assert_eq!(floating_isqrt_8(n, (n as f32).sqrt() as u8), expected, "floating at {n}");
    }
}

#[test]
fn exhaustive_width_16() {
    for n in 0..=u16::MAX {
        let expected = reference_isqrt(n as u32) as u16;
        assert_eq!(binary_isqrt_16(n), expected, "binary at {n}");
        assert_eq!(karatsuba_isqrt_16(n), expected, "karatsuba at {n}");
        assert_eq!(floating_isqrt_16(n, (n as f32).sqrt() as u16), expected, "floating at {n}");
    }
}
