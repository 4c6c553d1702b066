//! Fixed-point base-2 logarithm.
//!
//! Entropy and information gain are computed over a fixed-point logarithm
//! `log2fp`: `log2fp(x)` approximates `ENT_SCALE * log2(x)` from below, with
//! the integer part exact and `FRAC_BITS` binary digits of the fraction
//! obtained by the classical squaring recurrence. The definition is a pure
//! integer recursion, so every arithmetic fact the impurity metrics rely on
//! (monotonicity, `log2fp(1) == 0`, `log2fp(2x) == log2fp(x) + ENT_SCALE`,
//! exact values on powers of two) is proved, not assumed.

use vstd::prelude::*;

verus! {

use vstd::arithmetic::power2::{
    pow2,
    lemma_pow2_adds,
    lemma_pow2_strictly_increases,
    lemma_pow2_pos,
    lemma2_to64,
};
use vstd::arithmetic::div_mod::{
    lemma_div_is_ordered,
    lemma_div_multiples_vanish,
    lemma_fundamental_div_mod_converse,
};
use vstd::arithmetic::mul::{lemma_mul_inequality, lemma_mul_strict_inequality};

/// One whole unit of entropy (one bit), in fixed-point units: entropies and
/// information gains are integers scaled by this factor.
pub const ENT_SCALE: i64 = 0x4000_0000;

/// `ENT_SCALE` as the unsigned type the internal arithmetic runs in.
pub const ENT_SCALE_U: u64 = 0x4000_0000;

/// Number of fractional binary digits of `log2fp`: `ENT_SCALE == pow2(FRAC_BITS)`.
pub const FRAC_BITS: u64 = 30;

/// Floor of the base-2 logarithm of `x`, for `x >= 1`.
pub open spec fn ilog2(x: int) -> nat
    decreases x,
{
    if x < 2 {
        0
    } else {
        1 + ilog2(x / 2)
    }
}

/// The mantissa of `x`, normalized into `[pow2(30), pow2(31))`.
pub open spec fn mant(x: int) -> int {
    x * pow2((FRAC_BITS - ilog2(x)) as nat)
}

/// `k` fractional bits of `log2(m / pow2(30))` for a mantissa
/// `m in [pow2(30), pow2(31))`, by the squaring recurrence, most significant
/// bit first.
pub open spec fn frac_rec(m: int, k: nat) -> int
    decreases k,
{
    if k == 0 {
        0
    } else {
        let s = (m * m) / (ENT_SCALE as int);
        if s >= 2 * (ENT_SCALE as int) {
            pow2((k - 1) as nat) as int + frac_rec(s / 2, (k - 1) as nat)
        } else {
            frac_rec(s, (k - 1) as nat)
        }
    }
}

/// The fixed-point base-2 logarithm: `ilog2(x) * ENT_SCALE` plus 30
/// fractional bits. `log2fp(x)` is 0 for `x < 1`.
pub open spec fn log2fp(x: int) -> int {
    if x < 1 {
        0
    } else {
        ilog2(x) * (ENT_SCALE as int) + frac_rec(mant(x), FRAC_BITS as nat)
    }
}

/// `pow2(ilog2(x)) <= x < pow2(ilog2(x) + 1)` for `x >= 1`.
pub proof fn lemma_ilog2_bounds(x: int)
    requires
        x >= 1,
    ensures
        pow2(ilog2(x)) <= x < pow2(ilog2(x) + 1),
    decreases x,
{
    if x < 2 {
        lemma2_to64();
    } else {
        lemma_ilog2_bounds(x / 2);
        let e = ilog2(x / 2);
        lemma_pow2_adds(e, 1);
        lemma_pow2_adds(e + 1, 1);
        lemma2_to64();
        assert(x >= 2 * (x / 2)) by {
            vstd::arithmetic::div_mod::lemma_fundamental_div_mod(x, 2);
        }
        assert(x <= 2 * (x / 2) + 1) by {
            vstd::arithmetic::div_mod::lemma_fundamental_div_mod(x, 2);
        }
    }
}

/// `ilog2` is monotone.
pub proof fn lemma_ilog2_mono(x: int, y: int)
    requires
        1 <= x <= y,
    ensures
        ilog2(x) <= ilog2(y),
{
    lemma_ilog2_bounds(x);
    lemma_ilog2_bounds(y);
    if ilog2(x) > ilog2(y) {
        lemma_pow2_strictly_increases(ilog2(y) + 1, ilog2(x) + 1);
        assert(pow2(ilog2(y) + 1) <= pow2(ilog2(x))) by {
            if ilog2(y) + 1 < ilog2(x) {
                lemma_pow2_strictly_increases(ilog2(y) + 1, ilog2(x));
            }
        }
        assert(false);
    }
}

/// If `x <= pow2(j)` then `ilog2(x) <= j`.
pub proof fn lemma_ilog2_le(x: int, j: nat)
    requires
        1 <= x <= pow2(j),
    ensures
        ilog2(x) <= j,
{
    lemma_ilog2_bounds(x);
    if ilog2(x) > j {
        lemma_pow2_strictly_increases(j, ilog2(x));
        assert(false);
    }
}

/// The normalized mantissa lies in `[pow2(30), pow2(31))`.
pub proof fn lemma_mant_range(x: int)
    requires
        1 <= x <= ENT_SCALE,
    ensures
        ENT_SCALE <= mant(x) < 2 * ENT_SCALE,
{
    let e = ilog2(x);
    lemma_ilog2_bounds(x);
    lemma2_to64();
    lemma_ilog2_le(x, 30);
    let sh = (30 - e) as nat;
    lemma_pow2_pos(sh);
    lemma_pow2_adds(e, sh);
    lemma_pow2_adds(e + 1, sh);
    assert(pow2(e + 1 + sh) == 2 * pow2(e + sh)) by {
        lemma_pow2_adds(e + sh, 1);
        lemma2_to64();
    }
    assert(pow2(e + sh) == pow2(30nat));
    assert(x * pow2(sh) >= pow2(e) * pow2(sh)) by {
        lemma_mul_inequality(pow2(e) as int, x, pow2(sh) as int);
    }
    assert(x * pow2(sh) < pow2(e + 1) * pow2(sh)) by {
        lemma_mul_strict_inequality(x, pow2(e + 1) as int, pow2(sh) as int);
    }
}

/// One squaring step keeps the mantissa's square in `[pow2(30), pow2(32))`
/// after renormalization by `ENT_SCALE`.
pub proof fn lemma_sq_range(m: int)
    requires
        ENT_SCALE <= m < 2 * ENT_SCALE,
    ensures
        ENT_SCALE <= (m * m) / (ENT_SCALE as int) < 4 * ENT_SCALE,
{
    let p = ENT_SCALE as int;
    assert(m * m >= p * p) by {
        lemma_mul_inequality(p, m, m);
        lemma_mul_inequality(p, m, p);
    }
    assert((p * p) / p == p) by {
        lemma_div_multiples_vanish(p, p);
    }
    lemma_div_is_ordered(p * p, m * m, p);
    assert(m * m <= (2 * p - 1) * (2 * p - 1)) by {
        lemma_mul_inequality(m, 2 * p - 1, m);
        lemma_mul_inequality(m, 2 * p - 1, 2 * p - 1);
    }
    assert(((2 * p - 1) * (2 * p - 1)) / p == 4 * p - 4) by {
        assert((2 * p - 1) * (2 * p - 1) == (4 * p - 4) * p + 1);
        lemma_fundamental_div_mod_converse((2 * p - 1) * (2 * p - 1), p, 4 * p - 4, 1);
    }
    lemma_div_is_ordered(m * m, (2 * p - 1) * (2 * p - 1), p);
}

/// The fractional bits are nonnegative and below `pow2(k)`.
pub proof fn lemma_frac_bound(m: int, k: nat)
    requires
        ENT_SCALE <= m < 2 * ENT_SCALE,
    ensures
        0 <= frac_rec(m, k) < pow2(k),
    decreases k,
{
    lemma_pow2_pos(k);
    if k > 0 {
        let s = (m * m) / (ENT_SCALE as int);
        lemma_sq_range(m);
        if s >= 2 * ENT_SCALE {
            assert(ENT_SCALE <= s / 2 < 2 * ENT_SCALE) by {
                vstd::arithmetic::div_mod::lemma_fundamental_div_mod(s, 2);
            }
            lemma_frac_bound(s / 2, (k - 1) as nat);
        } else {
            lemma_frac_bound(s, (k - 1) as nat);
        }
        lemma_pow2_adds((k - 1) as nat, 1);
        lemma2_to64();
    }
}

/// The fractional bits are monotone in the mantissa.
pub proof fn lemma_frac_mono(m1: int, m2: int, k: nat)
    requires
        ENT_SCALE <= m1 <= m2 < 2 * ENT_SCALE,
    ensures
        frac_rec(m1, k) <= frac_rec(m2, k),
    decreases k,
{
    if k > 0 {
        let p = ENT_SCALE as int;
        let s1 = (m1 * m1) / p;
        let s2 = (m2 * m2) / p;
        lemma_sq_range(m1);
        lemma_sq_range(m2);
        assert(m1 * m1 <= m2 * m2) by {
            lemma_mul_inequality(m1, m2, m1);
            lemma_mul_inequality(m1, m2, m2);
        }
        lemma_div_is_ordered(m1 * m1, m2 * m2, p);
        assert(s1 / 2 <= s2 / 2) by {
            lemma_div_is_ordered(s1, s2, 2);
        }
        if s1 >= 2 * p {
            assert(p <= s1 / 2 < 2 * p && p <= s2 / 2 < 2 * p) by {
                vstd::arithmetic::div_mod::lemma_fundamental_div_mod(s1, 2);
                vstd::arithmetic::div_mod::lemma_fundamental_div_mod(s2, 2);
            }
            lemma_frac_mono(s1 / 2, s2 / 2, (k - 1) as nat);
        } else if s2 >= 2 * p {
            assert(p <= s2 / 2 < 2 * p) by {
                vstd::arithmetic::div_mod::lemma_fundamental_div_mod(s2, 2);
            }
            lemma_frac_bound(s1, (k - 1) as nat);
            lemma_frac_bound(s2 / 2, (k - 1) as nat);
        } else {
            lemma_frac_mono(s1, s2, (k - 1) as nat);
        }
    }
}

/// `log2fp` is monotone on `[1, ENT_SCALE]`.
pub proof fn lemma_log2fp_mono(x: int, y: int)
    requires
        1 <= x <= y <= ENT_SCALE,
    ensures
        log2fp(x) <= log2fp(y),
{
    let ex = ilog2(x);
    let ey = ilog2(y);
    lemma_ilog2_mono(x, y);
    lemma_mant_range(x);
    lemma_mant_range(y);
    lemma2_to64();
    lemma_ilog2_le(x, 30);
    lemma_ilog2_le(y, 30);
    if ex == ey {
        assert(mant(x) <= mant(y)) by {
            lemma_mul_inequality(x, y, pow2((30 - ex) as nat) as int);
        }
        lemma_frac_mono(mant(x), mant(y), FRAC_BITS as nat);
    } else {
        lemma_frac_bound(mant(x), FRAC_BITS as nat);
        lemma_frac_bound(mant(y), FRAC_BITS as nat);
        lemma2_to64();
        assert(ex * (ENT_SCALE as int) + ENT_SCALE <= ey * (ENT_SCALE as int)) by {
            lemma_mul_inequality(ex as int + 1, ey as int, ENT_SCALE as int);
        }
    }
}

/// Doubling the argument adds exactly one bit: `log2fp(2x) == log2fp(x) + ENT_SCALE`.
pub proof fn lemma_log2fp_double(x: int)
    requires
        1 <= 2 * x <= ENT_SCALE,
    ensures
        log2fp(2 * x) == log2fp(x) + ENT_SCALE,
{
    let e = ilog2(x);
    assert(ilog2(2 * x) == 1 + e) by {
        assert((2 * x) / 2 == x) by {
            lemma_div_multiples_vanish(x, 2);
        }
    }
    lemma2_to64();
    lemma_ilog2_le(x, 29);
    assert(mant(2 * x) == mant(x)) by {
        let sh = (30 - (e + 1)) as nat;
        lemma_pow2_adds(sh, 1);
        assert(pow2((30 - e) as nat) == pow2(sh) * 2) by {
            assert(pow2(1) == 2) by {
                lemma2_to64();
            }
        }
        assert((2 * x) * (pow2(sh) as int) == x * (pow2(sh) as int * 2)) by (nonlinear_arith);
    }
    assert((1 + e) * (ENT_SCALE as int) == e * (ENT_SCALE as int) + ENT_SCALE) by {
        vstd::arithmetic::mul::lemma_mul_is_distributive_add_other_way(
            ENT_SCALE as int,
            1,
            e as int,
        );
    }
}

/// `log2fp(1) == 0`.
pub proof fn lemma_log2fp_one()
    ensures
        log2fp(1) == 0,
{
    lemma2_to64();
    assert(mant(1) == ENT_SCALE) by {
        assert(pow2(30nat) == 0x4000_0000);
    }
    lemma_frac_rec_base(FRAC_BITS as nat);
}

/// The mantissa `ENT_SCALE` (the value 1.0) has no fractional bits.
proof fn lemma_frac_rec_base(k: nat)
    ensures
        frac_rec(ENT_SCALE as int, k) == 0,
    decreases k,
{
    if k > 0 {
        let p = ENT_SCALE as int;
        assert((p * p) / p == p) by {
            lemma_div_multiples_vanish(p, p);
        }
        lemma_frac_rec_base((k - 1) as nat);
    }
}

/// `log2fp` is exact on powers of two: `log2fp(pow2(j)) == j * ENT_SCALE`.
pub proof fn lemma_log2fp_pow2(j: nat)
    requires
        j <= 30,
    ensures
        log2fp(pow2(j) as int) == j * ENT_SCALE,
    decreases j,
{
    lemma2_to64();
    if j == 0 {
        lemma_log2fp_one();
    } else {
        lemma_log2fp_pow2((j - 1) as nat);
        lemma_pow2_adds((j - 1) as nat, 1);
        assert(pow2(j) == 2 * pow2((j - 1) as nat));
        lemma_pow2_pos((j - 1) as nat);
        assert(pow2(j) <= pow2(30nat)) by {
            if j < 30 {
                lemma_pow2_strictly_increases(j, 30);
            }
        }
        lemma_log2fp_double(pow2((j - 1) as nat) as int);
    }
}

/// `log2fp` stays below `21 * ENT_SCALE` on arguments up to `pow2(20)`.
pub proof fn lemma_log2fp_bound(x: int)
    requires
        1 <= x <= 0x10_0000,
    ensures
        0 <= log2fp(x) < 21 * ENT_SCALE,
{
    lemma2_to64();
    lemma_ilog2_le(x, 20);
    lemma_mant_range(x);
    lemma_frac_bound(mant(x), FRAC_BITS as nat);
    assert(ilog2(x) * (ENT_SCALE as int) <= 20 * ENT_SCALE) by {
        lemma_mul_inequality(ilog2(x) as int, 20, ENT_SCALE as int);
    }
}

/// Computes `log2fp(x)`: the fixed-point base-2 logarithm, by normalizing
/// `x` into `[2^30, 2^31)` and extracting 30 fractional bits with the
/// squaring recurrence.
pub fn log2_fixed(x: u64) -> (r: i64)
    requires
        1 <= x <= 0x10_0000,
    ensures
        r == log2fp(x as int),
        0 <= r < 21 * ENT_SCALE,
{
    proof {
        lemma2_to64();
        lemma_log2fp_bound(x as int);
    }
    let mut m: u64 = x;
    let mut d: u64 = 0;
    while m < ENT_SCALE_U
        invariant
            1 <= x <= 0x10_0000,
            m == x * pow2(d as nat),
            1 <= m < 2 * ENT_SCALE_U,
            d <= 30,
        decreases 2 * ENT_SCALE_U - m,
    {
        proof {
            lemma2_to64();
            if d >= 30 {
                lemma_pow2_pos(d as nat);
                assert(pow2(d as nat) >= pow2(30nat)) by {
                    if d > 30 {
                        lemma_pow2_strictly_increases(30, d as nat);
                    }
                }
                assert(x * pow2(d as nat) >= 1 * pow2(30nat)) by {
                    lemma_mul_inequality(1, x as int, pow2(d as nat) as int);
                }
                assert(false);
            }
            lemma_pow2_adds(d as nat, 1);
            assert(x * pow2((d + 1) as nat) == (x * pow2(d as nat)) * 2) by {
                vstd::arithmetic::mul::lemma_mul_is_associative(
                    x as int,
                    pow2(d as nat) as int,
                    2,
                );
            }
        }
        m = m * 2;
        d = d + 1;
    }
    proof {
        lemma2_to64();
        lemma_mant_range(x as int);
        lemma_ilog2_le(x as int, 20);
        // the number of doublings is exactly 30 - ilog2(x)
        let e = ilog2(x as int);
        let sh = (30 - e) as nat;
        if d as nat != sh {
            lemma_pow2_pos(d as nat);
            lemma_pow2_pos(sh);
            if (d as nat) < sh {
                lemma_pow2_adds(d as nat, (sh - d) as nat);
                lemma_pow2_pos((sh - d) as nat);
                assert(pow2((sh - d) as nat) >= 2) by {
                    lemma_pow2_strictly_increases(0, (sh - d) as nat);
                }
                assert(x * pow2(sh) >= (x * pow2(d as nat)) * 2) by {
                    vstd::arithmetic::mul::lemma_mul_is_associative(
                        x as int,
                        pow2(d as nat) as int,
                        pow2((sh - d) as nat) as int,
                    );
                    lemma_mul_inequality(
                        2,
                        pow2((sh - d) as nat) as int,
                        x * pow2(d as nat),
                    );
                    vstd::arithmetic::mul::lemma_mul_is_commutative(
                        x * pow2(d as nat),
                        pow2((sh - d) as nat) as int,
                    );
                }
                assert(false);
            } else {
                lemma_pow2_adds(sh, (d - sh) as nat);
                assert(pow2((d - sh) as nat) >= 2) by {
                    lemma_pow2_strictly_increases(0, (d - sh) as nat);
                }
                assert(x * pow2(d as nat) >= (x * pow2(sh)) * 2) by {
                    vstd::arithmetic::mul::lemma_mul_is_associative(
                        x as int,
                        pow2(sh) as int,
                        pow2((d - sh) as nat) as int,
                    );
                    lemma_mul_inequality(2, pow2((d - sh) as nat) as int, x * pow2(sh));
                    vstd::arithmetic::mul::lemma_mul_is_commutative(
                        x * pow2(sh),
                        pow2((d - sh) as nat) as int,
                    );
                }
                assert(false);
            }
        }
        assert(m == mant(x as int));
    }
    let ghost m0 = m;
    let mut fr: u64 = 0;
    let mut k: u64 = 0;
    while k < 30
        invariant
            k <= 30,
            ENT_SCALE_U <= m < 2 * ENT_SCALE_U,
            fr < pow2(k as nat),
            frac_rec(m0 as int, FRAC_BITS as nat) == fr * pow2((30 - k) as nat) + frac_rec(
                m as int,
                (30 - k) as nat,
            ),
            ENT_SCALE_U <= m0 < 2 * ENT_SCALE_U,
        decreases 30 - k,
    {
        proof {
            lemma2_to64();
            lemma_sq_range(m as int);
        }
        let s = (m * m) / ENT_SCALE_U;
        proof {
            let j = (30 - k) as nat;
            lemma_pow2_adds((j - 1) as nat, 1);
            lemma_frac_bound(m as int, j);
            if s >= 2 * ENT_SCALE_U {
                assert(ENT_SCALE_U <= s / 2 < 2 * ENT_SCALE_U) by {
                    vstd::arithmetic::div_mod::lemma_fundamental_div_mod(s as int, 2);
                }
                assert((fr * 2 + 1) * pow2((j - 1) as nat) == fr * pow2(j) + pow2(
                    (j - 1) as nat,
                )) by {
                    vstd::arithmetic::mul::lemma_mul_is_distributive_add_other_way(
                        pow2((j - 1) as nat) as int,
                        fr * 2,
                        1,
                    );
                    vstd::arithmetic::mul::lemma_mul_is_associative(
                        fr as int,
                        2,
                        pow2((j - 1) as nat) as int,
                    );
                }
            } else {
                assert((fr * 2) * pow2((j - 1) as nat) == fr * pow2(j)) by {
                    vstd::arithmetic::mul::lemma_mul_is_associative(
                        fr as int,
                        2,
                        pow2((j - 1) as nat) as int,
                    );
                }
            }
            lemma_pow2_adds(k as nat, 1);
        }
        if s >= 2 * ENT_SCALE_U {
            fr = fr * 2 + 1;
            m = s / 2;
        } else {
            fr = fr * 2;
            m = s;
        }
        k = k + 1;
    }
    proof {
        lemma2_to64();
        assert(pow2(0nat) == 1);
        assert(frac_rec(m as int, (30 - k) as nat) == 0);
        assert(frac_rec(m0 as int, FRAC_BITS as nat) == fr * pow2(0nat) + 0);
        assert(fr * pow2(0nat) == fr) by (nonlinear_arith)
            requires
                pow2(0nat) == 1,
        ;
        assert(frac_rec(m0 as int, FRAC_BITS as nat) == fr);
        lemma_ilog2_le(x as int, 20);
        assert((30 - d) * (ENT_SCALE_U as int) <= 20 * ENT_SCALE) by {
            lemma_mul_inequality(30 - d, 20, ENT_SCALE as int);
        }
    }
    let e: u64 = 30 - d;
    (e * ENT_SCALE_U + fr) as i64
}

} // verus!
