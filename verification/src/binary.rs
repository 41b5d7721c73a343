//! The binary digit-by-digit engine: a division-free shift-and-subtract
//! method that extracts the root two input bits at a time, from the most
//! significant digit down. It is the self-contained reference strategy; the
//! other engines are proved against the same bracketing contract.

use crate::math::is_isqrt;
use crate::math::lemma_exponent_fits;
use vstd::arithmetic::power2::lemma2_to64;
use vstd::arithmetic::power2::lemma_pow2_adds;
use vstd::arithmetic::power2::lemma_pow2_pos;
use vstd::arithmetic::power2::lemma_pow2_strictly_increases;
use vstd::arithmetic::power2::pow2;
use vstd::prelude::*;

verus! {

/// An accepted digit: when the remaining value `op` covers the trial value
/// `2*s*h + h*h`, the partial root grows from `s` to `s + h`, and the
/// remaining value keeps the exact-sum and upper-bound invariants at the
/// next, halved digit `h2`.
proof fn lemma_binary_step_sub(n0: int, s: int, op: int, h: int, h2: int)
    by (nonlinear_arith)
    requires
        h2 >= 1,
        s >= 0,
        h == 2 * h2,
        n0 == s * s + op,
        op >= 2 * (s * h) + h * h,
        op < 4 * (s * h) + 4 * (h * h),
    ensures
        n0 == (s + h) * (s + h) + (op - 2 * (s * h) - h * h),
        op - 2 * (s * h) - h * h >= 0,
        op - 2 * (s * h) - h * h < 4 * ((s + h) * h2) + 4 * (h2 * h2),
        (s * h) + h * h == 2 * ((s + h) * h2),
{
}

/// A rejected digit: the partial root keeps its value and only the digit is
/// halved; the upper bound carries over from the loop guard.
proof fn lemma_binary_step_keep(s: int, op: int, h: int, h2: int)
    by (nonlinear_arith)
    requires
        h2 >= 1,
        s >= 0,
        h == 2 * h2,
        op < 2 * (s * h) + h * h,
    ensures
        s * h == 2 * (s * h2),
        op < 4 * (s * h2) + 4 * (h2 * h2),
{
}

/// The trial value `2*s*h + h*h` stays below `p*p`, so the digit-extraction
/// loop never overflows its width.
proof fn lemma_binary_no_overflow(s: int, h: int, p: int)
    by (nonlinear_arith)
    requires
        h >= 1,
        s >= 0,
        s + 2 * h <= p,
    ensures
        2 * (s * h) + h * h < p * p,
{
}

/// After the last digit the invariants collapse to the bracketing that
/// defines the integer square root.
proof fn lemma_binary_final(n0: int, s: int, op: int)
    by (nonlinear_arith)
    requires
        s >= 0,
        op >= 0,
        n0 == s * s + op,
        op < 2 * s + 1,
    ensures
        is_isqrt(n0, s),
{
}

pub fn binary_isqrt_8(n: u8) -> (r: u8)
    ensures
        is_isqrt(n as int, r as int),
{
    if n < 2 {
        proof {
            assert(is_isqrt(0, 0));
            assert(is_isqrt(1, 1));
        }
        return n;
    }
    proof {
        lemma2_to64();
    }
    // The largest power of four not exceeding n marks the starting digit.
    let mut one: u8 = 1;
    let ghost mut j: nat = 0;
    while one <= n / 4
        invariant
            one as nat == pow2(2 * j),
            1 <= one <= n,
        decreases n - one,
    {
        proof {
            lemma_pow2_adds(2 * j, 2);
            lemma2_to64();
            j = j + 1;
        }
        one = one * 4;
    }
    let ghost k: nat = j;
    proof {
        lemma2_to64();
        lemma_exponent_fits(n as int, k, 8);
        lemma_pow2_adds(k, k);
        lemma_pow2_adds(k, 1);
    }
    let mut op: u8 = n;
    let mut res: u8 = 0;
    let ghost mut s: int = 0;
    while one != 0
        invariant
            pow2(2 * k + 2) <= pow2(8),
            pow2(8) == 0x100,
            one != 0 ==> {
                &&& one as nat == pow2(2 * j)
                &&& j <= k
                &&& 0 <= s
                &&& res as int == 2 * (s * (pow2(j) as int))
                &&& n as int == s * s + op
                &&& (op as int) < 4 * (s * (pow2(j) as int)) + 4 * ((pow2(j) as int) * (pow2(j) as int))
                &&& s + 2 * (pow2(j) as int) <= pow2(k + 1)
            },
            one == 0 ==> is_isqrt(n as int, res as int),
        decreases one,
    {
        let ghost h: int = pow2(j) as int;
        proof {
            lemma_pow2_pos(j);
            lemma_pow2_adds(j, j);
            lemma2_to64();
            assert(one as int == h * h);
            // the trial value fits the width
            lemma_binary_no_overflow(s, h, pow2(k + 1) as int);
            lemma_pow2_adds(k + 1, k + 1);
            assert(pow2((k + 1) + (k + 1)) == pow2(2 * k + 2));
            assert(2 * (s * h) + h * h < pow2(8));
        }
        if op >= res + one {
            let ghost op0: int = op as int;
            op = op - (res + one);
            res = res / 2 + one;
            proof {
                if j > 0 {
                    let h2 = pow2((j - 1) as nat) as int;
                    lemma_pow2_adds((j - 1) as nat, 1);
                    lemma_binary_step_sub(n as int, s, op0, h, h2);
                    lemma_pow2_adds(2 * (j - 1) as nat, 2);
                    s = s + h;
                    j = (j - 1) as nat;
                    lemma_pow2_strictly_increases(j, j + 1);
                } else {
                    assert(h == 1);
                    assert(s * h == s) by (nonlinear_arith)
                        requires
                            h == 1,
                    ;
                    assert(res as int == s + 1);
                    assert(n as int == (s + 1) * (s + 1) + op) by (nonlinear_arith)
                        requires
                            n as int == s * s + op0,
                            op as int == op0 - 2 * s - 1,
                    ;
                    s = s + 1;
                    lemma_binary_final(n as int, s, op as int);
                }
            }
        } else {
            res = res / 2;
            proof {
                if j > 0 {
                    let h2 = pow2((j - 1) as nat) as int;
                    lemma_pow2_adds((j - 1) as nat, 1);
                    lemma_binary_step_keep(s, op as int, h, h2);
                    lemma_pow2_adds(2 * (j - 1) as nat, 2);
                    j = (j - 1) as nat;
                    lemma_pow2_strictly_increases(j, j + 1);
                } else {
                    assert(h == 1);
                    assert(s * h == s) by (nonlinear_arith)
                        requires
                            h == 1,
                    ;
                    assert(res as int == s);
                    lemma_binary_final(n as int, s, op as int);
                }
            }
        }
        one = one / 4;
    }
    res
}

pub fn binary_isqrt_16(n: u16) -> (r: u16)
    ensures
        is_isqrt(n as int, r as int),
{
    if n < 2 {
        proof {
            assert(is_isqrt(0, 0));
            assert(is_isqrt(1, 1));
        }
        return n;
    }
    proof {
        lemma2_to64();
    }
    // The largest power of four not exceeding n marks the starting digit.
    let mut one: u16 = 1;
    let ghost mut j: nat = 0;
    while one <= n / 4
        invariant
            one as nat == pow2(2 * j),
            1 <= one <= n,
        decreases n - one,
    {
        proof {
            lemma_pow2_adds(2 * j, 2);
            lemma2_to64();
            j = j + 1;
        }
        one = one * 4;
    }
    let ghost k: nat = j;
    proof {
        lemma2_to64();
        lemma_exponent_fits(n as int, k, 16);
        lemma_pow2_adds(k, k);
        lemma_pow2_adds(k, 1);
    }
    let mut op: u16 = n;
    let mut res: u16 = 0;
    let ghost mut s: int = 0;
    while one != 0
        invariant
            pow2(2 * k + 2) <= pow2(16),
            pow2(16) == 0x1_0000,
            one != 0 ==> {
                &&& one as nat == pow2(2 * j)
                &&& j <= k
                &&& 0 <= s
                &&& res as int == 2 * (s * (pow2(j) as int))
                &&& n as int == s * s + op
                &&& (op as int) < 4 * (s * (pow2(j) as int)) + 4 * ((pow2(j) as int) * (pow2(j) as int))
                &&& s + 2 * (pow2(j) as int) <= pow2(k + 1)
            },
            one == 0 ==> is_isqrt(n as int, res as int),
        decreases one,
    {
        let ghost h: int = pow2(j) as int;
        proof {
            lemma_pow2_pos(j);
            lemma_pow2_adds(j, j);
            lemma2_to64();
            assert(one as int == h * h);
            // the trial value fits the width
            lemma_binary_no_overflow(s, h, pow2(k + 1) as int);
            lemma_pow2_adds(k + 1, k + 1);
            assert(pow2((k + 1) + (k + 1)) == pow2(2 * k + 2));
            assert(2 * (s * h) + h * h < pow2(16));
        }
        if op >= res + one {
            let ghost op0: int = op as int;
            op = op - (res + one);
            res = res / 2 + one;
            proof {
                if j > 0 {
                    let h2 = pow2((j - 1) as nat) as int;
                    lemma_pow2_adds((j - 1) as nat, 1);
                    lemma_binary_step_sub(n as int, s, op0, h, h2);
                    lemma_pow2_adds(2 * (j - 1) as nat, 2);
                    s = s + h;
                    j = (j - 1) as nat;
                    lemma_pow2_strictly_increases(j, j + 1);
                } else {
                    assert(h == 1);
                    assert(s * h == s) by (nonlinear_arith)
                        requires
                            h == 1,
                    ;
                    assert(res as int == s + 1);
                    assert(n as int == (s + 1) * (s + 1) + op) by (nonlinear_arith)
                        requires
                            n as int == s * s + op0,
                            op as int == op0 - 2 * s - 1,
                    ;
                    s = s + 1;
                    lemma_binary_final(n as int, s, op as int);
                }
            }
        } else {
            res = res / 2;
            proof {
                if j > 0 {
                    let h2 = pow2((j - 1) as nat) as int;
                    lemma_pow2_adds((j - 1) as nat, 1);
                    lemma_binary_step_keep(s, op as int, h, h2);
                    lemma_pow2_adds(2 * (j - 1) as nat, 2);
                    j = (j - 1) as nat;
                    lemma_pow2_strictly_increases(j, j + 1);
                } else {
                    assert(h == 1);
                    assert(s * h == s) by (nonlinear_arith)
                        requires
                            h == 1,
                    ;
                    assert(res as int == s);
                    lemma_binary_final(n as int, s, op as int);
                }
            }
        }
        one = one / 4;
    }
    res
}

pub fn binary_isqrt_32(n: u32) -> (r: u32)
    ensures
        is_isqrt(n as int, r as int),
{
    if n < 2 {
        proof {
            assert(is_isqrt(0, 0));
            assert(is_isqrt(1, 1));
        }
        return n;
    }
    proof {
        lemma2_to64();
    }
    // The largest power of four not exceeding n marks the starting digit.
    let mut one: u32 = 1;
    let ghost mut j: nat = 0;
    while one <= n / 4
        invariant
            one as nat == pow2(2 * j),
            1 <= one <= n,
        decreases n - one,
    {
        proof {
            lemma_pow2_adds(2 * j, 2);
            lemma2_to64();
            j = j + 1;
        }
        one = one * 4;
    }
    let ghost k: nat = j;
    proof {
        lemma2_to64();
        lemma_exponent_fits(n as int, k, 32);
        lemma_pow2_adds(k, k);
        lemma_pow2_adds(k, 1);
    }
    let mut op: u32 = n;
    let mut res: u32 = 0;
    let ghost mut s: int = 0;
    while one != 0
        invariant
            pow2(2 * k + 2) <= pow2(32),
            pow2(32) == 0x1_0000_0000,
            one != 0 ==> {
                &&& one as nat == pow2(2 * j)
                &&& j <= k
                &&& 0 <= s
                &&& res as int == 2 * (s * (pow2(j) as int))
                &&& n as int == s * s + op
                &&& (op as int) < 4 * (s * (pow2(j) as int)) + 4 * ((pow2(j) as int) * (pow2(j) as int))
                &&& s + 2 * (pow2(j) as int) <= pow2(k + 1)
            },
            one == 0 ==> is_isqrt(n as int, res as int),
        decreases one,
    {
        let ghost h: int = pow2(j) as int;
        proof {
            lemma_pow2_pos(j);
            lemma_pow2_adds(j, j);
            lemma2_to64();
            assert(one as int == h * h);
            // the trial value fits the width
            lemma_binary_no_overflow(s, h, pow2(k + 1) as int);
            lemma_pow2_adds(k + 1, k + 1);
            assert(pow2((k + 1) + (k + 1)) == pow2(2 * k + 2));
            assert(2 * (s * h) + h * h < pow2(32));
        }
        if op >= res + one {
            let ghost op0: int = op as int;
            op = op - (res + one);
            res = res / 2 + one;
            proof {
                if j > 0 {
                    let h2 = pow2((j - 1) as nat) as int;
                    lemma_pow2_adds((j - 1) as nat, 1);
                    lemma_binary_step_sub(n as int, s, op0, h, h2);
                    lemma_pow2_adds(2 * (j - 1) as nat, 2);
                    s = s + h;
                    j = (j - 1) as nat;
                    lemma_pow2_strictly_increases(j, j + 1);
                } else {
                    assert(h == 1);
                    assert(s * h == s) by (nonlinear_arith)
                        requires
                            h == 1,
                    ;
                    assert(res as int == s + 1);
                    assert(n as int == (s + 1) * (s + 1) + op) by (nonlinear_arith)
                        requires
                            n as int == s * s + op0,
                            op as int == op0 - 2 * s - 1,
                    ;
                    s = s + 1;
                    lemma_binary_final(n as int, s, op as int);
                }
            }
        } else {
            res = res / 2;
            proof {
                if j > 0 {
                    let h2 = pow2((j - 1) as nat) as int;
                    lemma_pow2_adds((j - 1) as nat, 1);
                    lemma_binary_step_keep(s, op as int, h, h2);
                    lemma_pow2_adds(2 * (j - 1) as nat, 2);
                    j = (j - 1) as nat;
                    lemma_pow2_strictly_increases(j, j + 1);
                } else {
                    assert(h == 1);
                    assert(s * h == s) by (nonlinear_arith)
                        requires
                            h == 1,
                    ;
                    assert(res as int == s);
                    lemma_binary_final(n as int, s, op as int);
                }
            }
        }
        one = one / 4;
    }
    res
}

pub fn binary_isqrt_64(n: u64) -> (r: u64)
    ensures
        is_isqrt(n as int, r as int),
{
    if n < 2 {
        proof {
            assert(is_isqrt(0, 0));
            assert(is_isqrt(1, 1));
        }
        return n;
    }
    proof {
        lemma2_to64();
    }
    // The largest power of four not exceeding n marks the starting digit.
    let mut one: u64 = 1;
    let ghost mut j: nat = 0;
    while one <= n / 4
        invariant
            one as nat == pow2(2 * j),
            1 <= one <= n,
        decreases n - one,
    {
        proof {
            lemma_pow2_adds(2 * j, 2);
            lemma2_to64();
            j = j + 1;
        }
        one = one * 4;
    }
    let ghost k: nat = j;
    proof {
        lemma2_to64();
        lemma_exponent_fits(n as int, k, 64);
        lemma_pow2_adds(k, k);
        lemma_pow2_adds(k, 1);
    }
    let mut op: u64 = n;
    let mut res: u64 = 0;
    let ghost mut s: int = 0;
    while one != 0
        invariant
            pow2(2 * k + 2) <= pow2(64),
            pow2(64) == 0x1_0000_0000_0000_0000,
            one != 0 ==> {
                &&& one as nat == pow2(2 * j)
                &&& j <= k
                &&& 0 <= s
                &&& res as int == 2 * (s * (pow2(j) as int))
                &&& n as int == s * s + op
                &&& (op as int) < 4 * (s * (pow2(j) as int)) + 4 * ((pow2(j) as int) * (pow2(j) as int))
                &&& s + 2 * (pow2(j) as int) <= pow2(k + 1)
            },
            one == 0 ==> is_isqrt(n as int, res as int),
        decreases one,
    {
        let ghost h: int = pow2(j) as int;
        proof {
            lemma_pow2_pos(j);
            lemma_pow2_adds(j, j);
            lemma2_to64();
            assert(one as int == h * h);
            // the trial value fits the width
            lemma_binary_no_overflow(s, h, pow2(k + 1) as int);
            lemma_pow2_adds(k + 1, k + 1);
            assert(pow2((k + 1) + (k + 1)) == pow2(2 * k + 2));
            assert(2 * (s * h) + h * h < pow2(64));
        }
        if op >= res + one {
            let ghost op0: int = op as int;
            op = op - (res + one);
            res = res / 2 + one;
            proof {
                if j > 0 {
                    let h2 = pow2((j - 1) as nat) as int;
                    lemma_pow2_adds((j - 1) as nat, 1);
                    lemma_binary_step_sub(n as int, s, op0, h, h2);
                    lemma_pow2_adds(2 * (j - 1) as nat, 2);
                    s = s + h;
                    j = (j - 1) as nat;
                    lemma_pow2_strictly_increases(j, j + 1);
                } else {
                    assert(h == 1);
                    assert(s * h == s) by (nonlinear_arith)
                        requires
                            h == 1,
                    ;
                    assert(res as int == s + 1);
                    assert(n as int == (s + 1) * (s + 1) + op) by (nonlinear_arith)
                        requires
                            n as int == s * s + op0,
                            op as int == op0 - 2 * s - 1,
                    ;
                    s = s + 1;
                    lemma_binary_final(n as int, s, op as int);
                }
            }
        } else {
            res = res / 2;
            proof {
                if j > 0 {
                    let h2 = pow2((j - 1) as nat) as int;
                    lemma_pow2_adds((j - 1) as nat, 1);
                    lemma_binary_step_keep(s, op as int, h, h2);
                    lemma_pow2_adds(2 * (j - 1) as nat, 2);
                    j = (j - 1) as nat;
                    lemma_pow2_strictly_increases(j, j + 1);
                } else {
                    assert(h == 1);
                    assert(s * h == s) by (nonlinear_arith)
                        requires
                            h == 1,
                    ;
                    assert(res as int == s);
                    lemma_binary_final(n as int, s, op as int);
                }
            }
        }
        one = one / 4;
    }
    res
}

pub fn binary_isqrt_128(n: u128) -> (r: u128)
    ensures
        is_isqrt(n as int, r as int),
{
    if n < 2 {
        proof {
            assert(is_isqrt(0, 0));
            assert(is_isqrt(1, 1));
        }
        return n;
    }
    proof {
        lemma2_to64();
    }
    // The largest power of four not exceeding n marks the starting digit.
    let mut one: u128 = 1;
    let ghost mut j: nat = 0;
    while one <= n / 4
        invariant
            one as nat == pow2(2 * j),
            1 <= one <= n,
        decreases n - one,
    {
        proof {
            lemma_pow2_adds(2 * j, 2);
            lemma2_to64();
            j = j + 1;
        }
        one = one * 4;
    }
    let ghost k: nat = j;
    proof {
        lemma2_to64();
        lemma_pow2_adds(64, 64);
        lemma_exponent_fits(n as int, k, 128);
        lemma_pow2_adds(k, k);
        lemma_pow2_adds(k, 1);
    }
    let mut op: u128 = n;
    let mut res: u128 = 0;
    let ghost mut s: int = 0;
    while one != 0
        invariant
            pow2(2 * k + 2) <= pow2(128),
            pow2(128) == 0x1_0000_0000_0000_0000_0000_0000_0000_0000,
            one != 0 ==> {
                &&& one as nat == pow2(2 * j)
                &&& j <= k
                &&& 0 <= s
                &&& res as int == 2 * (s * (pow2(j) as int))
                &&& n as int == s * s + op
                &&& (op as int) < 4 * (s * (pow2(j) as int)) + 4 * ((pow2(j) as int) * (pow2(j) as int))
                &&& s + 2 * (pow2(j) as int) <= pow2(k + 1)
            },
            one == 0 ==> is_isqrt(n as int, res as int),
        decreases one,
    {
        let ghost h: int = pow2(j) as int;
        proof {
            lemma_pow2_pos(j);
            lemma_pow2_adds(j, j);
            lemma2_to64();
            assert(one as int == h * h);
            // the trial value fits the width
            lemma_binary_no_overflow(s, h, pow2(k + 1) as int);
            lemma_pow2_adds(k + 1, k + 1);
            assert(pow2((k + 1) + (k + 1)) == pow2(2 * k + 2));
            assert(2 * (s * h) + h * h < pow2(128));
        }
        if op >= res + one {
            let ghost op0: int = op as int;
            op = op - (res + one);
            res = res / 2 + one;
            proof {
                if j > 0 {
                    let h2 = pow2((j - 1) as nat) as int;
                    lemma_pow2_adds((j - 1) as nat, 1);
                    lemma_binary_step_sub(n as int, s, op0, h, h2);
                    lemma_pow2_adds(2 * (j - 1) as nat, 2);
                    s = s + h;
                    j = (j - 1) as nat;
                    lemma_pow2_strictly_increases(j, j + 1);
                } else {
                    assert(h == 1);
                    assert(s * h == s) by (nonlinear_arith)
                        requires
                            h == 1,
                    ;
                    assert(res as int == s + 1);
                    assert(n as int == (s + 1) * (s + 1) + op) by (nonlinear_arith)
                        requires
                            n as int == s * s + op0,
                            op as int == op0 - 2 * s - 1,
                    ;
                    s = s + 1;
                    lemma_binary_final(n as int, s, op as int);
                }
            }
        } else {
            res = res / 2;
            proof {
                if j > 0 {
                    let h2 = pow2((j - 1) as nat) as int;
                    lemma_pow2_adds((j - 1) as nat, 1);
                    lemma_binary_step_keep(s, op as int, h, h2);
                    lemma_pow2_adds(2 * (j - 1) as nat, 2);
                    j = (j - 1) as nat;
                    lemma_pow2_strictly_increases(j, j + 1);
                } else {
                    assert(h == 1);
                    assert(s * h == s) by (nonlinear_arith)
                        requires
                            h == 1,
                    ;
                    assert(res as int == s);
                    lemma_binary_final(n as int, s, op as int);
                }
            }
        }
        one = one / 4;
    }
    res
}

} // verus!
