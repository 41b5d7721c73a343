//! Boundary scenarios, perfect-square exactness, signed/unsigned
//! consistency, and the verified base-case table.

use isqrt::binary::{binary_isqrt_128, binary_isqrt_64};
use isqrt::karatsuba::{karatsuba_isqrt_128, karatsuba_isqrt_with_remainder_8};
use isqrt::table::isqrt_remainder_table;
use isqrt::{SignedIsqrt, UnsignedIsqrt};

#[test]
fn boundary_scenarios() {
    assert_eq!(UnsignedIsqrt::isqrt(0u8), 0);
    assert_eq!(UnsignedIsqrt::isqrt(255u8), 15);
    assert_eq!(UnsignedIsqrt::isqrt(u64::MAX), 4_294_967_295);
    assert_eq!(SignedIsqrt::checked_isqrt(-1i32), None);
    assert_eq!(SignedIsqrt::isqrt(i64::MAX), 3_037_000_499);
    assert_eq!(karatsuba_isqrt_128(u128::MAX), binary_isqrt_128(u128::MAX));
}

#[test]
fn checked_isqrt_on_negatives() {
    assert_eq!(SignedIsqrt::checked_isqrt(-1i8), None);
    assert_eq!(SignedIsqrt::checked_isqrt(i8::MIN), None);
    assert_eq!(SignedIsqrt::checked_isqrt(-1i16), None);
    assert_eq!(SignedIsqrt::checked_isqrt(i16::MIN), None);
    assert_eq!(SignedIsqrt::checked_isqrt(i32::MIN), None);
    assert_eq!(SignedIsqrt::checked_isqrt(-1i64), None);
    assert_eq!(SignedIsqrt::checked_isqrt(i64::MIN), None);
    assert_eq!(SignedIsqrt::checked_isqrt(-1i128), None);
    assert_eq!(SignedIsqrt::checked_isqrt(i128::MIN), None);
}

#[test]
fn signed_unsigned_consistency() {
    for n in (0i64..=127).chain((0..63).map(|k| (1i64 << k) - 1)) {
        let unsigned_root = UnsignedIsqrt::isqrt(n as u64) as i64;
        assert_eq!(SignedIsqrt::checked_isqrt(n), Some(unsigned_root));
        assert_eq!(SignedIsqrt::isqrt(n), unsigned_root);
    }
    for n in (0i32..=127).chain([i32::MAX - 1, i32::MAX]) {
        let unsigned_root = UnsignedIsqrt::isqrt(n as u32) as i32;
        assert_eq!(SignedIsqrt::checked_isqrt(n), Some(unsigned_root));
        assert_eq!(SignedIsqrt::isqrt(n), unsigned_root);
    }
}

#[test]
fn perfect_square_exactness_small() {
    // the first 1024 roots, at the widest width
    for k in 0u128..1024 {
        assert_eq!(UnsignedIsqrt::isqrt(k * k), k);
        assert_eq!(UnsignedIsqrt::isqrt(k * k + k), k);
        assert_eq!(UnsignedIsqrt::isqrt(k * k + 2 * k), k);
        assert_eq!(UnsignedIsqrt::isqrt((k + 1) * (k + 1) - 1), k);
    }
}

#[test]
fn perfect_square_exactness_near_max_root() {
    // near the largest representable root of each width
    for k in (u64::MAX as u128) - 64..=u64::MAX as u128 {
        assert_eq!(UnsignedIsqrt::isqrt(k * k), k);
        assert_eq!(UnsignedIsqrt::isqrt(k * k + k), k);
        assert_eq!(UnsignedIsqrt::isqrt(k * k + 2 * k), k);
    }
    for k in u32::MAX - 64..=u32::MAX {
        let k = k as u64;
        assert_eq!(UnsignedIsqrt::isqrt(k * k), k);
        assert_eq!(UnsignedIsqrt::isqrt(k * k + k), k);
        assert_eq!(UnsignedIsqrt::isqrt(k * k + 2 * k), k);
    }
    for k in u16::MAX - 64..=u16::MAX {
        let k = k as u32;
        assert_eq!(UnsignedIsqrt::isqrt(k * k), k);
        assert_eq!(UnsignedIsqrt::isqrt(k * k + 2 * k), k);
    }
    for k in 250u16..=255 {
        assert_eq!(UnsignedIsqrt::isqrt((k * k) as u16), k);
    }
    for k in 12u8..=15 {
        assert_eq!(UnsignedIsqrt::isqrt(k * k), k);
    }
}

#[test]
fn round_trip_on_valid_roots() {
    // every value that is itself a root output comes back unchanged
    for n in [0u32, 1, 2, 3, 9, 100, 4096, 99_980_001, u32::MAX] {
        let r = UnsignedIsqrt::isqrt(n);
        assert_eq!(UnsignedIsqrt::isqrt(r * r), r);
    }
}

#[test]
fn base_case_table_is_exact() {
    let table = isqrt_remainder_table();
    assert_eq!(table.len(), 256);
    for n in 0..=255u16 {
        let (s, r) = table[n as usize];
        let (s, r) = (s as u16, r as u16);
        assert_eq!(s * s + r, n);
        assert!(r <= 2 * s);
    }
}

#[test]
fn base_case_lookup_matches_table() {
    let table = isqrt_remainder_table();
    for n in 0..=255u8 {
        assert_eq!(karatsuba_isqrt_with_remainder_8(n), table[n as usize]);
    }
}

#[test]
fn sixty_four_bit_boundaries() {
    assert_eq!(binary_isqrt_64(0), 0);
    assert_eq!(binary_isqrt_64(1), 1);
    assert_eq!(binary_isqrt_64(2), 1);
    assert_eq!(binary_isqrt_64(3), 1);
    assert_eq!(binary_isqrt_64(4), 2);
    assert_eq!(binary_isqrt_64((1 << 53) + 1), 94_906_265);
    assert_eq!(binary_isqrt_64(u64::MAX), u32::MAX as u64);
}
