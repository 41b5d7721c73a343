//! Exact integer square roots of fixed-width signed and unsigned integers,
//! computed by several independently verified strategies: a digit-by-digit
//! binary engine, a recursive Karatsuba engine over a verified base-case
//! table, and the integer correction stage of a floating-point-seeded
//! engine. Every engine is proved to return the floor of the real square
//! root for every representable input, with all intermediate arithmetic
//! shown free of overflow.
//!
//! The two traits below are the main entry points; their implementations
//! delegate to the self-contained binary engine. The Karatsuba and
//! float-corrected engines are exposed as free functions with the same
//! bracketing contract, so any two of them provably agree on every input
//! (`math::lemma_isqrt_unique`).

pub mod binary;
pub mod floating;
pub mod karatsuba;
pub mod math;
pub mod table;

use crate::math::is_isqrt;
use crate::math::lemma_isqrt_le;
use vstd::prelude::*;

verus! {

/// Integer square root of an unsigned value: total, and pinned down by the
/// bracketing `r*r <= self < (r+1)*(r+1)`.
pub trait UnsignedIsqrt: Sized {
    /// The mathematical value of `self`.
    spec fn nat_value(self) -> nat;

    /// The largest `r` whose square does not exceed `self`.
    fn isqrt(self) -> (r: Self)
        ensures
            is_isqrt(self.nat_value() as int, r.nat_value() as int),
    ;
}

/// Integer square root of a signed value: negative inputs have none, and
/// `checked_isqrt` reports that by absence; `isqrt` demands a nonnegative
/// argument outright, as the square root of a negative value is a domain
/// error, not a recoverable condition.
pub trait SignedIsqrt: Sized {
    /// The mathematical value of `self`.
    spec fn int_value(self) -> int;

    /// The root when `self` is nonnegative, absent when it is negative.
    fn checked_isqrt(self) -> (r: Option<Self>)
        ensures
            self.int_value() < 0 <==> r is None,
            r matches Some(v) ==> is_isqrt(self.int_value(), v.int_value()),
    ;

    /// The root of a nonnegative value.
    fn isqrt(self) -> (r: Self)
        requires
            self.int_value() >= 0,
        ensures
            is_isqrt(self.int_value(), r.int_value()),
    ;
}

impl UnsignedIsqrt for u8 {
    open spec fn nat_value(self) -> nat {
        self as nat
    }

    fn isqrt(self) -> (r: Self) {
        crate::binary::binary_isqrt_8(self)
    }
}

impl UnsignedIsqrt for u16 {
    open spec fn nat_value(self) -> nat {
        self as nat
    }

    fn isqrt(self) -> (r: Self) {
        crate::binary::binary_isqrt_16(self)
    }
}

impl UnsignedIsqrt for u32 {
    open spec fn nat_value(self) -> nat {
        self as nat
    }

    fn isqrt(self) -> (r: Self) {
        crate::binary::binary_isqrt_32(self)
    }
}

impl UnsignedIsqrt for u64 {
    open spec fn nat_value(self) -> nat {
        self as nat
    }

    fn isqrt(self) -> (r: Self) {
        crate::binary::binary_isqrt_64(self)
    }
}

impl UnsignedIsqrt for u128 {
    open spec fn nat_value(self) -> nat {
        self as nat
    }

    fn isqrt(self) -> (r: Self) {
        crate::binary::binary_isqrt_128(self)
    }
}

impl SignedIsqrt for i8 {
    open spec fn int_value(self) -> int {
        self as int
    }

    fn checked_isqrt(self) -> (r: Option<Self>) {
        if self < 0 {
            None
        } else {
            let root = crate::binary::binary_isqrt_8(self as u8);
            proof {
                lemma_isqrt_le(self as int, root as int);
            }
            Some(root as i8)
        }
    }

    fn isqrt(self) -> (r: Self) {
        match SignedIsqrt::checked_isqrt(self) {
            Some(root) => root,
            None => {
                proof {
                    assert(false);
                }
                0
            },
        }
    }
}

impl SignedIsqrt for i16 {
    open spec fn int_value(self) -> int {
        self as int
    }

    fn checked_isqrt(self) -> (r: Option<Self>) {
        if self < 0 {
            None
        } else {
            let root = crate::binary::binary_isqrt_16(self as u16);
            proof {
                lemma_isqrt_le(self as int, root as int);
            }
            Some(root as i16)
        }
    }

    fn isqrt(self) -> (r: Self) {
        match SignedIsqrt::checked_isqrt(self) {
            Some(root) => root,
            None => {
                proof {
                    assert(false);
                }
                0
            },
        }
    }
}

impl SignedIsqrt for i32 {
    open spec fn int_value(self) -> int {
        self as int
    }

    fn checked_isqrt(self) -> (r: Option<Self>) {
        if self < 0 {
            None
        } else {
            let root = crate::binary::binary_isqrt_32(self as u32);
            proof {
                lemma_isqrt_le(self as int, root as int);
            }
            Some(root as i32)
        }
    }

    fn isqrt(self) -> (r: Self) {
        match SignedIsqrt::checked_isqrt(self) {
            Some(root) => root,
            None => {
                proof {
                    assert(false);
                }
                0
            },
        }
    }
}

impl SignedIsqrt for i64 {
    open spec fn int_value(self) -> int {
        self as int
    }

    fn checked_isqrt(self) -> (r: Option<Self>) {
        if self < 0 {
            None
        } else {
            let root = crate::binary::binary_isqrt_64(self as u64);
            proof {
                lemma_isqrt_le(self as int, root as int);
            }
            Some(root as i64)
        }
    }

    fn isqrt(self) -> (r: Self) {
        match SignedIsqrt::checked_isqrt(self) {
            Some(root) => root,
            None => {
                proof {
                    assert(false);
                }
                0
            },
        }
    }
}

impl SignedIsqrt for i128 {
    open spec fn int_value(self) -> int {
        self as int
    }

    fn checked_isqrt(self) -> (r: Option<Self>) {
        if self < 0 {
            None
        } else {
            let root = crate::binary::binary_isqrt_128(self as u128);
            proof {
                lemma_isqrt_le(self as int, root as int);
            }
            Some(root as i128)
        }
    }

    fn isqrt(self) -> (r: Self) {
        match SignedIsqrt::checked_isqrt(self) {
            Some(root) => root,
            None => {
                proof {
                    assert(false);
                }
                0
            },
        }
    }
}

} // verus!
