//! Geometric mean of speed ratios in binary fixed point.
//!
//! A speed ratio is a value in millionths, in `1 ..= 1_000_000` (a language
//! at most matches the task's best time).  The geometric mean
//! `exp2(mean(log2 r))` is computed in base-2 fixed point with 32
//! fractional bits: `log2` by repeated squaring, `exp2` by repeated square
//! roots.  A single ratio is returned unchanged, so a language measured on
//! one task scores exactly its ratio on it.

use vstd::prelude::*;
use vstd::arithmetic::mul::{
    lemma_mul_upper_bound, lemma_mul_inequality, lemma_mul_left_inequality, lemma_mul_is_commutative,
    lemma_mul_is_associative,
};
use vstd::arithmetic::div_mod::{lemma_div_is_ordered, lemma_div_by_multiple,
    lemma_div_is_ordered_by_denominator};

verus! {

/// One as a Q32 fixed-point value.
pub const Q32: u64 = 0x1_0000_0000;

/// `2^k` for spec use.
pub open spec fn spec_pow2(k: int) -> int
    decreases
            (if k > 0 {
                k
            } else {
                0
            }),
{
    if k <= 0 {
        1
    } else {
        2 * spec_pow2(k - 1)
    }
}

proof fn lemma_pow2_pos(k: int)
    ensures
        spec_pow2(k) >= 1,
    decreases
            (if k > 0 {
                k
            } else {
                0
            }),
{
    if k > 0 {
        lemma_pow2_pos(k - 1);
    }
}

proof fn lemma_pow2_mono(a: int, b: int)
    requires
        a <= b,
    ensures
        spec_pow2(a) <= spec_pow2(b),
    decreases b - a,
{
    lemma_pow2_pos(a);
    if a < b {
        lemma_pow2_mono(a, b - 1);
        lemma_pow2_pos(b - 1);
    }
}

proof fn lemma_pow2_values()
    ensures
        spec_pow2(31) == 0x8000_0000,
        spec_pow2(32) == Q32,
        spec_pow2(33) == 2 * Q32,
        spec_pow2(62) == 0x4000_0000_0000_0000,
        spec_pow2(64) == 0x1_0000_0000_0000_0000,
{
    reveal_with_fuel(spec_pow2, 66);
}

proof fn lemma_pow2_add(a: int, b: int)
    requires
        a >= 0,
        b >= 0,
    ensures
        spec_pow2(a + b) == spec_pow2(a) * spec_pow2(b),
    decreases a,
{
    if a == 0 {
    } else {
        lemma_pow2_add(a - 1, b);
        lemma_mul_is_associative(2, spec_pow2(a - 1), spec_pow2(b));
    }
}

/// Floor of the binary logarithm.
pub open spec fn spec_ilog2(x: int) -> int
    decreases x,
{
    if x < 2 {
        0
    } else {
        1 + spec_ilog2(x / 2)
    }
}

proof fn lemma_ilog2_nonneg(x: int)
    ensures
        spec_ilog2(x) >= 0,
    decreases x,
{
    if x >= 2 {
        lemma_ilog2_nonneg(x / 2);
    }
}

/// `x` lies between `2^ilog2(x)` and `2^(ilog2(x)+1)`.
pub proof fn lemma_ilog2_range(x: int)
    requires
        x >= 1,
    ensures
        spec_pow2(spec_ilog2(x)) <= x < spec_pow2(spec_ilog2(x) + 1),
    decreases x,
{
    if x >= 2 {
        lemma_ilog2_range(x / 2);
    }
}

proof fn lemma_ilog2_le(x: int, b: int)
    requires
        1 <= x,
        0 <= b,
        x < spec_pow2(b + 1),
    ensures
        spec_ilog2(x) <= b,
{
    lemma_ilog2_nonneg(x);
    lemma_ilog2_range(x);
    if spec_ilog2(x) > b {
        lemma_pow2_mono(b + 1, spec_ilog2(x));
    }
}

/// Floor of the binary logarithm, by halving.
pub fn ilog2(x: u64) -> (r: u64)
    requires
        x >= 1,
    ensures
        r == spec_ilog2(x as int),
        r <= 63,
{
    proof {
        lemma_pow2_values();
        lemma_pow2_mono(64, 64);
        lemma_ilog2_le(x as int, 63);
    }
    let mut t: u64 = x;
    let mut k: u64 = 0;
    while t >= 2
        invariant
            1 <= t <= x,
            spec_ilog2(x as int) == k + spec_ilog2(t as int),
            spec_ilog2(x as int) <= 63,
            k <= 63,
        decreases t,
    {
        proof {
            lemma_ilog2_nonneg(t as int / 2);
        }
        t = t / 2;
        k = k + 1;
        proof {
            lemma_ilog2_nonneg(t as int);
        }
    }
    k
}

/// `2^k` as a machine value.
pub fn pow2_exec(k: u64) -> (r: u64)
    requires
        k <= 63,
    ensures
        r == spec_pow2(k as int),
        r >= 1,
{
    let mut i: u64 = 0;
    let mut r: u64 = 1;
    while i < k
        invariant
            i <= k,
            k <= 63,
            r == spec_pow2(i as int),
            r >= 1,
        decreases k - i,
    {
        proof {
            lemma_pow2_values();
            lemma_pow2_mono(i as int, 62);
        }
        r = r * 2;
        i = i + 1;
    }
    r
}

/// The integer square root by bisection.
pub open spec fn spec_isqrt_rec(n: int, lo: int, hi: int) -> int
    decreases
            (if hi > lo {
                hi - lo
            } else {
                0
            }),
{
    if lo + 1 >= hi {
        lo
    } else {
        let mid = (lo + hi) / 2;
        if mid * mid <= n {
            spec_isqrt_rec(n, mid, hi)
        } else {
            spec_isqrt_rec(n, lo, mid)
        }
    }
}

/// The integer square root of a wide value.
pub open spec fn spec_isqrt(n: int) -> int {
    spec_isqrt_rec(n, 0, 0x1_0000_0000_0000_0000)
}

/// Computes the integer square root: the greatest `r` with `r * r <= n`.
pub fn isqrt(n: u128) -> (r: u64)
    ensures
        r == spec_isqrt(n as int),
        r as int * r as int <= n as int,
        (r as int + 1) * (r as int + 1) > n as int,
{
    proof {
        assert(0x1_0000_0000_0000_0000int * 0x1_0000_0000_0000_0000int > (u128::MAX as int));
    }
    isqrt_go(n, 0, 0x1_0000_0000_0000_0000u128)
}

fn isqrt_go(n: u128, lo: u128, hi: u128) -> (r: u64)
    requires
        lo < hi <= 0x1_0000_0000_0000_0000u128,
        lo as int * lo as int <= n as int,
        hi as int * hi as int > n as int,
    ensures
        r == spec_isqrt_rec(n as int, lo as int, hi as int),
        r as int * r as int <= n as int,
        (r as int + 1) * (r as int + 1) > n as int,
        lo as int <= r as int,
        (r as int) < hi as int,
    decreases hi - lo,
{
    if lo + 1 >= hi {
        proof {
            assert(lo < 0x1_0000_0000_0000_0000u128);
        }
        lo as u64
    } else {
        let mid = (lo + hi) / 2;
        proof {
            assert(lo < mid < hi);
            lemma_mul_upper_bound(
                mid as int,
                0xFFFF_FFFF_FFFF_FFFFint,
                mid as int,
                0xFFFF_FFFF_FFFF_FFFFint,
            );
        }
        if mid * mid <= n {
            isqrt_go(n, mid, hi)
        } else {
            isqrt_go(n, lo, mid)
        }
    }
}

/// The fractional bits of `log2(m / Q32)` for `m` in `[Q32, 2*Q32)`,
/// most significant bit first, by repeated squaring.
pub open spec fn spec_log2_frac(m: int, steps: int) -> int
    decreases
            (if steps > 0 {
                steps
            } else {
                0
            }),
{
    if steps <= 0 {
        0
    } else {
        let m2 = (m * m) / (Q32 as int);
        if m2 >= 2 * (Q32 as int) {
            spec_pow2(steps - 1) + spec_log2_frac(m2 / 2, steps - 1)
        } else {
            spec_log2_frac(m2, steps - 1)
        }
    }
}

proof fn lemma_log2_frac_bound(m: int, steps: int)
    ensures
        0 <= spec_log2_frac(m, steps) < spec_pow2(steps),
    decreases
            (if steps > 0 {
                steps
            } else {
                0
            }),
{
    lemma_pow2_pos(steps);
    if steps > 0 {
        let m2 = (m * m) / (Q32 as int);
        lemma_log2_frac_bound(m2 / 2, steps - 1);
        lemma_log2_frac_bound(m2, steps - 1);
    }
}

/// Computes the fractional bits of the binary logarithm.
fn log2_frac(m: u64, steps: u64) -> (r: u64)
    requires
        Q32 <= m < 2 * Q32,
        steps <= 32,
    ensures
        r == spec_log2_frac(m as int, steps as int),
        r < spec_pow2(steps as int),
    decreases steps,
{
    proof {
        lemma_log2_frac_bound(m as int, steps as int);
        lemma_pow2_values();
        lemma_pow2_mono(steps as int, 32);
    }
    if steps == 0 {
        0
    } else {
        proof {
            lemma_mul_upper_bound(m as int, 2 * Q32 as int, m as int, 2 * Q32 as int);
            // lower bound: m * m >= Q32 * Q32
            lemma_mul_inequality(Q32 as int, m as int, m as int);
            lemma_mul_left_inequality(Q32 as int, Q32 as int, m as int);
            lemma_mul_is_commutative(Q32 as int, m as int);
            lemma_div_is_ordered(Q32 as int * Q32 as int, m as int * m as int, Q32 as int);
            lemma_div_by_multiple(Q32 as int, Q32 as int);
            // upper bound: m * m <= (2*Q32) * (2*Q32) = 4*Q32*Q32
            lemma_div_is_ordered(
                m as int * m as int,
                (2 * Q32 as int) * (2 * Q32 as int),
                Q32 as int,
            );
            lemma_div_by_multiple(4 * Q32 as int, Q32 as int);
            assert((2 * Q32 as int) * (2 * Q32 as int) == (4 * Q32 as int) * Q32 as int) by {
                lemma_mul_is_associative(2, Q32 as int, 2 * Q32 as int);
                lemma_mul_is_commutative(Q32 as int, 2 * Q32 as int);
                lemma_mul_is_associative(2, 2 * Q32 as int, Q32 as int);
                lemma_mul_is_associative(2, 2, Q32 as int);
            };
        }
        let wide: u128 = (m as u128) * (m as u128);
        let m2w: u128 = wide / (Q32 as u128);
        proof {
            assert(m2w as int == (m as int * m as int) / (Q32 as int));
            assert(m2w >= Q32 as u128);
            assert(m2w <= 4 * Q32 as u128);
        }
        let m2: u64 = m2w as u64;
        proof {
            // strict upper bound: m2 * Q32 <= m * m < 4 * Q32 * Q32
            vstd::arithmetic::div_mod::lemma_fundamental_div_mod(
                m as int * m as int,
                Q32 as int,
            );
            vstd::arithmetic::div_mod::lemma_mod_bound(m as int * m as int, Q32 as int);
            lemma_mul_upper_bound(m as int, 2 * Q32 as int - 1, m as int, 2 * Q32 as int - 1);
            assert((2 * Q32 as int - 1) * (2 * Q32 as int - 1) < (4 * Q32 as int) * (Q32 as int))
                by {
                assert(2 * Q32 as int - 1 == 0x1_FFFF_FFFFint);
                assert(0x1_FFFF_FFFFint * 0x1_FFFF_FFFFint == 0x3_FFFF_FFFC_0000_0001int);
                assert(4 * Q32 as int == 0x4_0000_0000int);
                assert(0x4_0000_0000int * 0x1_0000_0000int == 0x4_0000_0000_0000_0000int);
            };
            if m2 as int >= 4 * Q32 as int {
                lemma_mul_inequality(4 * Q32 as int, m2 as int, Q32 as int);
                lemma_mul_is_commutative(m2 as int, Q32 as int);
                assert(false);
            }
        }
        if m2 >= 2 * Q32 {
            let low = log2_frac(m2 / 2, steps - 1);
            let bit = pow2_exec(steps - 1);
            proof {
                lemma_pow2_values();
                lemma_pow2_mono(steps as int - 1, 31);
            }
            bit + low
        } else {
            log2_frac(m2, steps - 1)
        }
    }
}

/// The magnitude, in Q32, of `log2(x / Q32)` for `x` in `[1, Q32]` — the
/// logarithm itself is never positive there.
pub open spec fn spec_neg_log2(x: int) -> int {
    let k = spec_ilog2(x);
    let m = x * spec_pow2(32 - k);
    (32 - k) * (Q32 as int) - spec_log2_frac(m, 32)
}

proof fn lemma_ilog2_q32()
    ensures
        spec_ilog2(Q32 as int) == 32,
{
    reveal_with_fuel(spec_ilog2, 34);
}

proof fn lemma_log2_frac_of_one(steps: int)
    requires
        steps >= 0,
    ensures
        spec_log2_frac(Q32 as int, steps) == 0,
    decreases steps,
{
    if steps > 0 {
        lemma_div_by_multiple(Q32 as int, Q32 as int);
        assert((Q32 as int * Q32 as int) / Q32 as int == Q32 as int);
        lemma_log2_frac_of_one(steps - 1);
    }
}

/// The magnitude of the logarithm is between zero and thirty-two.
pub proof fn lemma_neg_log2_range(x: int)
    requires
        1 <= x <= Q32 as int,
    ensures
        0 <= spec_neg_log2(x) <= 32 * (Q32 as int),
{
    let k = spec_ilog2(x);
    lemma_ilog2_nonneg(x);
    lemma_pow2_values();
    if x == Q32 as int {
        lemma_ilog2_q32();
        lemma_log2_frac_of_one(32);
        assert(x * spec_pow2(0) == x);
    } else {
        lemma_ilog2_le(x, 31);
        lemma_log2_frac_bound(x * spec_pow2(32 - k), 32);
        assert(spec_log2_frac(x * spec_pow2(32 - k), 32) < Q32 as int);
        assert((32 - k) * (Q32 as int) >= 1 * (Q32 as int)) by {
            lemma_mul_inequality(1, 32 - k, Q32 as int);
        };
        assert((32 - k) * (Q32 as int) <= 32 * (Q32 as int)) by {
            lemma_mul_inequality(32 - k, 32, Q32 as int);
        };
    }
}

/// Computes the magnitude of the binary logarithm of a Q32 value at most
/// one.
pub fn neg_log2(x: u64) -> (r: u64)
    requires
        1 <= x <= Q32,
    ensures
        r == spec_neg_log2(x as int),
        r <= 32 * Q32,
{
    let k = ilog2(x);
    proof {
        lemma_pow2_values();
        lemma_ilog2_q32();
        lemma_ilog2_nonneg(x as int);
        if x < Q32 {
            lemma_ilog2_le(x as int, 31);
        }
        lemma_ilog2_range(x as int);
        // x * 2^(32-k) is in [Q32, 2*Q32)
        lemma_pow2_add(k as int, 32 - k as int);
        lemma_pow2_add(k as int + 1, 32 - k as int);
        lemma_pow2_pos(32 - k as int);
        lemma_pow2_pos(k as int);
        // lower: 2^k * 2^(32-k) <= x * 2^(32-k)
        lemma_mul_inequality(spec_pow2(k as int), x as int, spec_pow2(32 - k as int));
        // upper: x <= 2^(k+1) - 1, so x * 2^(32-k) <= 2^33 - 2^(32-k) < 2^33
        lemma_mul_inequality(x as int, spec_pow2(k as int + 1) - 1, spec_pow2(32 - k as int));
        vstd::arithmetic::mul::lemma_mul_is_distributive_sub_other_way(
            spec_pow2(32 - k as int),
            spec_pow2(k as int + 1),
            1,
        );
        lemma_pow2_mono(0, 32 - k as int);
    }
    let scale = pow2_exec(32 - k);
    let m: u64 = x * scale;
    proof {
        assert(Q32 <= m);
        assert(m < 2 * Q32);
    }
    let frac = log2_frac(m, 32);
    proof {
        assert(frac < Q32) by {
            lemma_pow2_values();
        };
        if k == 32 {
            assert(x == Q32) by {
                lemma_ilog2_range(x as int);
                lemma_pow2_values();
            };
            assert(m == x * 1);
            lemma_log2_frac_of_one(32);
            assert(frac == 0);
        }
    }
    (32 - k) * Q32 - frac
}

/// The product chain of `exp2` on the fractional bits: repeatedly takes the
/// square root of the running base and multiplies it in where the bit is
/// set, clamping at two to keep every step in range.
pub open spec fn spec_exp2_frac_rec(f: int, c: int, d: int, acc: int, steps: int) -> int
    decreases
            (if steps > 0 {
                steps
            } else {
                0
            }),
{
    if steps <= 0 {
        acc
    } else {
        let c2 = spec_isqrt(c * (Q32 as int));
        let acc2 = if d >= 1 && (f / d) % 2 == 1 {
            let raw = (acc * c2) / (Q32 as int);
            if raw > 2 * (Q32 as int) {
                2 * (Q32 as int)
            } else {
                raw
            }
        } else {
            acc
        };
        spec_exp2_frac_rec(f, c2, d / 2, acc2, steps - 1)
    }
}

/// `2^(f / Q32)` in Q32, for a fraction `f` in `[0, Q32)`.
pub open spec fn spec_exp2_frac(f: int) -> int {
    spec_exp2_frac_rec(f, 2 * (Q32 as int), (Q32 as int) / 2, Q32 as int, 32)
}

fn exp2_frac_go(f: u64, c: u64, d: u64, acc: u64, steps: u64) -> (r: u64)
    requires
        Q32 <= c <= 2 * Q32,
        Q32 <= acc <= 2 * Q32,
        steps <= 32,
    ensures
        r == spec_exp2_frac_rec(f as int, c as int, d as int, acc as int, steps as int),
        Q32 <= r <= 2 * Q32,
    decreases steps,
{
    if steps == 0 {
        acc
    } else {
        proof {
            lemma_mul_upper_bound(c as int, 2 * Q32 as int, Q32 as int, Q32 as int);
        }
        let wide: u128 = (c as u128) * (Q32 as u128);
        let c2: u64 = isqrt(wide);
        proof {
            let c2i = c2 as int;
            let w = c as int * Q32 as int;
            // Q32 * Q32 <= w
            lemma_mul_inequality(Q32 as int, c as int, Q32 as int);
            // lower bound on c2
            if c2i < Q32 as int {
                lemma_mul_upper_bound(c2i + 1, Q32 as int, c2i + 1, Q32 as int);
                assert(false);
            }
            // upper bound on c2
            if c2i > 2 * Q32 as int {
                // w <= 2*Q32*Q32 < (2*Q32)^2 <= c2^2 <= w: contradiction
                lemma_mul_inequality(c as int, 2 * Q32 as int, Q32 as int);
                assert((2 * Q32 as int) * (2 * Q32 as int) > (2 * Q32 as int) * (Q32 as int))
                    by {
                    lemma_mul_left_inequality(2 * Q32 as int, Q32 as int + 1, 2 * Q32 as int);
                    lemma_mul_left_inequality(2 * Q32 as int, Q32 as int, Q32 as int + 1);
                };
                lemma_mul_upper_bound(2 * Q32 as int, c2i, 2 * Q32 as int, c2i);
                assert((2 * Q32 as int) * (Q32 as int) == 2 * (Q32 as int * Q32 as int)) by {
                    lemma_mul_is_associative(2, Q32 as int, Q32 as int);
                };
                assert(false);
            }
        }
        let take_bit = d >= 1 && (f / d) % 2 == 1;
        let acc2: u64 = if take_bit {
            proof {
                lemma_mul_upper_bound(acc as int, 2 * Q32 as int, c2 as int, 2 * Q32 as int);
                assert((2 * Q32 as int) * (2 * Q32 as int) == 0x4_0000_0000_0000_0000int) by {
                    lemma_mul_is_associative(2, Q32 as int, 2 * Q32 as int);
                    lemma_mul_is_commutative(Q32 as int, 2 * Q32 as int);
                    lemma_mul_is_associative(2, 2, Q32 as int);
                    lemma_mul_is_associative(4int, Q32 as int, Q32 as int);
                };
                assert(acc as int * c2 as int <= 0x4_0000_0000_0000_0000int);
                lemma_mul_inequality(Q32 as int, acc as int, c2 as int);
                lemma_mul_left_inequality(Q32 as int, Q32 as int, c2 as int);
                lemma_mul_is_commutative(Q32 as int, c2 as int);
                lemma_mul_is_commutative(acc as int, c2 as int);
                lemma_div_is_ordered(Q32 as int * Q32 as int, acc as int * c2 as int, Q32 as int);
                lemma_div_by_multiple(Q32 as int, Q32 as int);
            }
            let raw: u128 = (acc as u128) * (c2 as u128) / (Q32 as u128);
            proof {
                assert(raw as int == (acc as int * c2 as int) / (Q32 as int));
                assert(raw >= Q32 as u128);
            }
            if raw > (2 * Q32) as u128 {
                2 * Q32
            } else {
                raw as u64
            }
        } else {
            acc
        };
        exp2_frac_go(f, c2, d / 2, acc2, steps - 1)
    }
}

/// `2^(-y / Q32)` in Q32, for a magnitude `y` up to thirty-two.
pub open spec fn spec_exp2_neg(y: int) -> int {
    let n = y / (Q32 as int);
    let f = y % (Q32 as int);
    let p = spec_exp2_frac(f);
    ((Q32 as int) * (Q32 as int) / p) / spec_pow2(n)
}

/// Computes `2^(-y / Q32)` in Q32.
pub fn exp2_neg(y: u64) -> (r: u64)
    requires
        y <= 32 * Q32,
    ensures
        r == spec_exp2_neg(y as int),
        r <= Q32,
{
    let n: u64 = y / Q32;
    let f: u64 = y % Q32;
    let p: u64 = exp2_frac_go(f, 2 * Q32, Q32 / 2, Q32, 32);
    proof {
        assert((Q32 as int) * (Q32 as int) == 0x1_0000_0000_0000_0000int);
    }
    let num: u128 = (Q32 as u128) * (Q32 as u128);
    let q: u128 = num / (p as u128);
    proof {
        lemma_div_is_ordered_by_denominator(num as int, Q32 as int, p as int);
        lemma_div_by_multiple(Q32 as int, Q32 as int);
        assert(q as int <= Q32 as int);
        lemma_pow2_pos(n as int);
    }
    let scale = pow2_exec(n);
    let r: u64 = (q as u64) / scale;
    proof {
        lemma_div_is_ordered(q as int, Q32 as int, spec_pow2(n as int));
        lemma_div_is_ordered_by_denominator(Q32 as int, 1, spec_pow2(n as int));
    }
    r
}

/// The sum of the logarithm magnitudes of a ratio list.
pub open spec fn spec_log_sum(ratios: Seq<u64>) -> int
    decreases ratios.len(),
{
    if ratios.len() == 0 {
        0
    } else {
        spec_neg_log2((ratios[0] as int) * (Q32 as int) / 1_000_000) + spec_log_sum(
            ratios.drop_first(),
        )
    }
}

/// The Q32 form of a ratio in millionths is between one and `Q32`.
proof fn lemma_ratio_q32_range(value: int)
    requires
        1 <= value <= 1_000_000,
    ensures
        1 <= (value * (Q32 as int)) / 1_000_000 <= Q32 as int,
{
    lemma_mul_inequality(1, value, Q32 as int);
    lemma_mul_inequality(value, 1_000_000, Q32 as int);
    lemma_div_is_ordered(Q32 as int, value * (Q32 as int), 1_000_000);
    lemma_div_is_ordered(value * (Q32 as int), 1_000_000 * (Q32 as int), 1_000_000);
    lemma_mul_is_commutative(Q32 as int, 1_000_000);
    lemma_div_by_multiple(Q32 as int, 1_000_000);
    assert(Q32 as int / 1_000_000 >= 1) by {
        lemma_div_is_ordered(1_000_000, Q32 as int, 1_000_000);
        lemma_div_by_multiple(1, 1_000_000);
    };
}

proof fn lemma_log_sum_bound(ratios: Seq<u64>)
    requires
        forall|i: int| 0 <= i < ratios.len() ==> 1 <= #[trigger] ratios[i] <= 1_000_000,
    ensures
        0 <= spec_log_sum(ratios) <= ratios.len() * (32 * Q32 as int),
    decreases ratios.len(),
{
    if ratios.len() == 0 {
    } else {
        let t = ratios.drop_first();
        assert forall|i: int| 0 <= i < t.len() implies 1 <= #[trigger] t[i] <= 1_000_000 by {
            assert(t[i] == ratios[i + 1]);
        }
        lemma_log_sum_bound(t);
        lemma_ratio_q32_range(ratios[0] as int);
        lemma_neg_log2_range((ratios[0] as int) * (Q32 as int) / 1_000_000);
        assert(ratios.len() * (32 * Q32 as int) == t.len() * (32 * Q32 as int) + 32 * Q32 as int)
            by {
            vstd::arithmetic::mul::lemma_mul_is_distributive_add_other_way(
                32 * Q32 as int,
                t.len() as int,
                1,
            );
        };
    }
}

/// The geometric mean, in millionths, of a list of ratios in millionths,
/// each between one and one million.  A single ratio is returned exactly;
/// an empty list yields zero.
pub open spec fn spec_geo_mean(ratios: Seq<u64>) -> u64 {
    if ratios.len() == 0 {
        0u64
    } else if ratios.len() == 1 {
        ratios[0]
    } else {
        let avg = spec_log_sum(ratios) / ratios.len() as int;
        ((spec_exp2_neg(avg) * 1_000_000) / (Q32 as int)) as u64
    }
}

/// Computes the geometric mean of speed ratios.
pub fn geo_mean(ratios: &Vec<u64>) -> (r: u64)
    requires
        forall|i: int| 0 <= i < ratios@.len() ==> 1 <= #[trigger] ratios@[i] <= 1_000_000,
    ensures
        r == spec_geo_mean(ratios@),
        r <= 1_000_000,
{
    if ratios.len() == 0 {
        return 0;
    }
    if ratios.len() == 1 {
        return ratios[0];
    }
    let mut sum: u128 = 0;
    let mut i: usize = 0;
    let ghost rs = ratios@;
    proof {
        assert(rs.skip(0) =~= rs);
    }
    while i < ratios.len()
        invariant
            i <= rs.len(),
            rs == ratios@,
            forall|t: int| 0 <= t < rs.len() ==> 1 <= #[trigger] rs[t] <= 1_000_000,
            spec_log_sum(rs) == sum + spec_log_sum(rs.skip(i as int)),
            sum as int <= (i as int) * (32 * (Q32 as int)),
        decreases rs.len() - i,
    {
        proof {
            assert(rs.skip(i as int)[0] == rs[i as int]);
            assert(rs.skip(i as int).drop_first() =~= rs.skip(i + 1));
        }
        let value = ratios[i];
        proof {
            lemma_ratio_q32_range(value as int);
            assert((i as int) * (32 * (Q32 as int)) + 32 * (Q32 as int) == (i as int + 1) * (32 * (
            Q32 as int))) by {
                vstd::arithmetic::mul::lemma_mul_is_distributive_add_other_way(
                    32 * (Q32 as int),
                    i as int,
                    1,
                );
            };
            lemma_mul_upper_bound(
                i as int + 1,
                0x1_0000_0000_0000_0000int,
                32 * (Q32 as int),
                32 * (Q32 as int),
            );
        }
        let x: u64 = (((value as u128) * (Q32 as u128)) / 1_000_000u128) as u64;
        let lg = neg_log2(x);
        sum = sum + lg as u128;
        i = i + 1;
    }
    proof {
        assert(rs.skip(i as int) =~= Seq::<u64>::empty());
        assert(sum as int == spec_log_sum(rs));
    }
    let count: u128 = ratios.len() as u128;
    let avg: u128 = sum / count;
    proof {
        lemma_log_sum_bound(rs);
        lemma_div_is_ordered(sum as int, rs.len() as int * (32 * (Q32 as int)), rs.len() as int);
        lemma_mul_is_commutative(rs.len() as int, 32 * (Q32 as int));
        lemma_div_by_multiple(32 * (Q32 as int), rs.len() as int);
    }
    let g = exp2_neg(avg as u64);
    let score: u128 = (g as u128) * 1_000_000u128 / (Q32 as u128);
    proof {
        lemma_mul_inequality(g as int, Q32 as int, 1_000_000);
        lemma_div_is_ordered(g as int * 1_000_000, (Q32 as int) * 1_000_000, Q32 as int);
        lemma_mul_is_commutative(Q32 as int, 1_000_000);
        lemma_div_by_multiple(1_000_000, Q32 as int);
    }
    score as u64
}

} // verus!
