//! The Impurity Metrics: Shannon entropy and Gini impurity of a
//! [`Distribution`], in fixed point.
//!
//! Because probabilities are exact rationals `count / total`, entropy is
//! computed from counts alone: for counts `c_1..c_m` summing to `n`,
//! `n * H == n * log2fp(n) - sum of c_i * log2fp(c_i)`, an exact integer.
//! [`wentropy`] is that count-weighted numerator; the per-sample entropy is
//! its floor quotient by `n`. The Split Evaluator compares the exact
//! numerators, never the quotients.

use vstd::prelude::*;

verus! {

use crate::dist::{Distribution, count_of, firsts, sum_counts, sum_vec, count_dist};
use crate::dist::{lemma_count_bounds, lemma_counts_total};
use crate::logfp::{ENT_SCALE, log2fp, log2_fixed, lemma_log2fp_bound, lemma_log2fp_mono,
    lemma_log2fp_one};
use crate::table::MAX_SAMPLES;
use vstd::arithmetic::mul::{
    lemma_mul_inequality,
    lemma_mul_nonnegative,
    lemma_mul_is_distributive_add_other_way,
    lemma_mul_is_distributive_sub_other_way,
    lemma_mul_is_commutative,
};
use vstd::arithmetic::div_mod::{lemma_div_multiples_vanish, lemma_div_is_ordered};

/// Sum of `c * log2fp(c)` over a vector of counts.
pub open spec fn sum_cl(cs: Seq<u64>) -> int
    decreases cs.len(),
{
    if cs.len() == 0 {
        0
    } else {
        sum_cl(cs.drop_last()) + cs.last() * log2fp(cs.last() as int)
    }
}

/// Sum of `count_of(s, k) * log2fp(count_of(s, k))` over the keys `ks`.
pub open spec fn sum_cl_keys(s: Seq<i64>, ks: Seq<i64>) -> int
    decreases ks.len(),
{
    if ks.len() == 0 {
        0
    } else {
        sum_cl_keys(s, ks.drop_last()) + count_of(s, ks.last()) * log2fp(count_of(s, ks.last()))
    }
}

/// The count-weighted entropy of a label sequence, scaled by `ENT_SCALE`:
/// `s.len()` times the Shannon entropy of the empirical distribution of `s`.
pub open spec fn wentropy(s: Seq<i64>) -> int {
    s.len() * log2fp(s.len() as int) - sum_cl_keys(s, firsts(s))
}

/// The per-sample entropy of a label sequence, scaled by `ENT_SCALE`.
pub open spec fn entropy_of(s: Seq<i64>) -> int {
    wentropy(s) / (s.len() as int)
}

/// The count-weighted entropy of a distribution given by counts `cs` summing
/// to `n`.
pub open spec fn went_counts(cs: Seq<u64>, n: int) -> int {
    n * log2fp(n) - sum_cl(cs)
}

/// The entropy of a distribution given by counts `cs` summing to `n`, scaled
/// by `ENT_SCALE`.
pub open spec fn ent_counts(cs: Seq<u64>, n: int) -> int {
    went_counts(cs, n) / n
}

/// Sum of squared counts.
pub open spec fn sum_sq(cs: Seq<u64>) -> int
    decreases cs.len(),
{
    if cs.len() == 0 {
        0
    } else {
        sum_sq(cs.drop_last()) + cs.last() * cs.last()
    }
}

/// The Gini impurity of a distribution given by counts `cs` summing to `n`,
/// scaled by `ENT_SCALE`: `(1 - sum of (c/n)^2) * ENT_SCALE`, rounded down.
pub open spec fn gini_counts(cs: Seq<u64>, n: int) -> int {
    (ENT_SCALE * (n * n - sum_sq(cs))) / (n * n)
}

/// `sum_cl` is between 0 and `sum_vec * log2fp(n)` when every count is
/// between 1 and `n`.
pub proof fn lemma_sum_cl_bound(cs: Seq<u64>, n: int)
    requires
        1 <= n <= MAX_SAMPLES,
        forall|k: int| 0 <= k < cs.len() ==> 1 <= #[trigger] cs[k] <= n,
    ensures
        0 <= sum_cl(cs) <= sum_vec(cs) * log2fp(n),
        sum_vec(cs) >= 0,
    decreases cs.len(),
{
    lemma_log2fp_bound(n);
    if cs.len() == 0 {
    } else {
        let cd = cs.drop_last();
        let c = cs.last() as int;
        assert(forall|k: int| 0 <= k < cd.len() ==> 1 <= #[trigger] cd[k] <= n) by {
            assert(forall|k: int| 0 <= k < cd.len() ==> cd[k] == cs[k]);
        }
        lemma_sum_cl_bound(cd, n);
        lemma_log2fp_bound(c);
        lemma_log2fp_mono(c, n);
        lemma_mul_nonnegative(c, log2fp(c));
        lemma_mul_inequality(log2fp(c), log2fp(n), c);
        lemma_mul_is_commutative(log2fp(c), c);
        lemma_mul_is_commutative(log2fp(n), c);
        lemma_mul_is_distributive_add_other_way(log2fp(n), sum_vec(cd), c);
    }
}

/// `sum_cl_keys` is between 0 and `sum_counts * log2fp(n)` when every count
/// is at most `n`.
pub proof fn lemma_sum_cl_keys_bound(s: Seq<i64>, ks: Seq<i64>, n: int)
    requires
        1 <= n <= MAX_SAMPLES,
        s.len() <= n,
    ensures
        0 <= sum_cl_keys(s, ks) <= sum_counts(s, ks) * log2fp(n),
        sum_counts(s, ks) >= 0,
    decreases ks.len(),
{
    lemma_log2fp_bound(n);
    if ks.len() == 0 {
    } else {
        let kd = ks.drop_last();
        lemma_sum_cl_keys_bound(s, kd, n);
        let c = count_of(s, ks.last());
        lemma_count_bounds(s, ks.last());
        if c == 0 {
            assert(log2fp(0) == 0);
            lemma_mul_is_distributive_add_other_way(log2fp(n), sum_counts(s, kd), c);
            lemma_mul_nonnegative(c, log2fp(n));
        } else {
            lemma_log2fp_bound(c);
            lemma_log2fp_mono(c, n);
            lemma_mul_nonnegative(c, log2fp(c));
            lemma_mul_inequality(log2fp(c), log2fp(n), c);
            lemma_mul_is_commutative(log2fp(c), c);
            lemma_mul_is_commutative(log2fp(n), c);
            lemma_mul_is_distributive_add_other_way(log2fp(n), sum_counts(s, kd), c);
        }
    }
}

/// The count-weighted entropy of a nonempty bounded label sequence is
/// between 0 and `len * log2fp(len)`.
pub proof fn lemma_wentropy_bounds(s: Seq<i64>)
    requires
        1 <= s.len() <= MAX_SAMPLES,
    ensures
        0 <= wentropy(s) <= s.len() * log2fp(s.len() as int),
        s.len() * log2fp(s.len() as int) <= s.len() * (21 * ENT_SCALE),
{
    let n = s.len() as int;
    lemma_counts_total(s);
    lemma_sum_cl_keys_bound(s, firsts(s), n);
    lemma_log2fp_bound(n);
    lemma_mul_inequality(log2fp(n), 21 * ENT_SCALE, n);
    lemma_mul_is_commutative(log2fp(n), n);
    lemma_mul_is_commutative(21 * ENT_SCALE, n);
}

/// A count vector that mirrors `count_of` over a key list has the same
/// count-weighted log sum.
pub proof fn lemma_sum_cl_keys_vec(s: Seq<i64>, ks: Seq<i64>, cs: Seq<u64>)
    requires
        cs.len() == ks.len(),
        forall|k: int| 0 <= k < cs.len() ==> #[trigger] cs[k] == count_of(s, ks[k]),
    ensures
        sum_cl(cs) == sum_cl_keys(s, ks),
    decreases cs.len(),
{
    if cs.len() > 0 {
        let cd = cs.drop_last();
        let kd = ks.drop_last();
        assert(forall|k: int| 0 <= k < cd.len() ==> #[trigger] cd[k] == count_of(s, kd[k])) by {
            assert(forall|k: int| 0 <= k < cd.len() ==> cd[k] == cs[k] && kd[k] == ks[k]);
        }
        lemma_sum_cl_keys_vec(s, kd, cd);
    }
}

/// Entropy of a single-point-mass distribution is 0.
pub proof fn lemma_entropy_point_mass(n: u64)
    requires
        1 <= n,
    ensures
        went_counts(seq![n], n as int) == 0,
        ent_counts(seq![n], n as int) == 0,
{
    let q = seq![n];
    assert(q.len() == 1 && q.last() == n);
    assert(q.drop_last() =~= Seq::<u64>::empty());
    assert(sum_cl(q.drop_last()) == 0);
    assert(sum_cl(q) == sum_cl(q.drop_last()) + q.last() * log2fp(q.last() as int));
    assert(sum_cl(seq![n]) == n * log2fp(n as int));
    assert(went_counts(seq![n], n as int) == 0);
    assert(0int / (n as int) == 0) by {
        lemma_div_multiples_vanish(0, n as int);
    }
}

/// `sum_cl` bounded with the term at one index kept exact.
proof fn lemma_sum_cl_bound_except(cs: Seq<u64>, n: int, k: int)
    requires
        1 <= n <= MAX_SAMPLES,
        forall|j: int| 0 <= j < cs.len() ==> 1 <= #[trigger] cs[j] <= n,
        0 <= k < cs.len(),
    ensures
        sum_cl(cs) <= (sum_vec(cs) - cs[k]) * log2fp(n) + cs[k] * log2fp(cs[k] as int),
    decreases cs.len(),
{
    lemma_log2fp_bound(n);
    let cd = cs.drop_last();
    let c = cs.last() as int;
    assert(forall|j: int| 0 <= j < cd.len() ==> 1 <= #[trigger] cd[j] <= n) by {
        assert(forall|j: int| 0 <= j < cd.len() ==> cd[j] == cs[j]);
    }
    if k == cs.len() - 1 {
        lemma_sum_cl_bound(cd, n);
        lemma_mul_is_distributive_sub_other_way(log2fp(n), sum_vec(cs), c);
    } else {
        lemma_sum_cl_bound_except(cd, n, k);
        assert(cd[k] == cs[k]);
        lemma_log2fp_bound(c);
        lemma_log2fp_mono(c, n);
        lemma_mul_inequality(log2fp(c), log2fp(n), c);
        lemma_mul_is_commutative(log2fp(c), c);
        lemma_mul_is_commutative(log2fp(n), c);
        lemma_mul_is_distributive_add_other_way(log2fp(n), sum_vec(cd) - cs[k], c);
    }
}

/// Entropy of a distribution over at least two values is strictly positive:
/// together with `lemma_entropy_point_mass`, entropy is zero exactly on a
/// single point mass.
pub proof fn lemma_entropy_positive_when_mixed(cs: Seq<u64>, n: int)
    requires
        1 <= n <= MAX_SAMPLES,
        cs.len() >= 2,
        forall|j: int| 0 <= j < cs.len() ==> 1 <= #[trigger] cs[j] <= n,
        sum_vec(cs) == n,
    ensures
        went_counts(cs, n) >= ENT_SCALE,
        ent_counts(cs, n) >= 1,
{
    lemma_log2fp_bound(n);
    // one of the two first counts is at most half the total
    lemma_sum_vec_prefix(cs, 2);
    let two = cs.subrange(0, 2);
    assert(two.drop_last() =~= cs.subrange(0, 1));
    assert(cs.subrange(0, 1).drop_last() =~= Seq::<u64>::empty());
    assert(sum_vec(Seq::<u64>::empty()) == 0);
    assert(cs.subrange(0, 1).last() == cs[0]);
    assert(sum_vec(cs.subrange(0, 1)) == cs[0]);
    assert(two.last() == cs[1]);
    assert(sum_vec(two) == cs[0] + cs[1]);
    let k: int = if 2 * cs[0] <= n {
        0
    } else {
        1
    };
    assert(2 * cs[k] <= n);
    let c = cs[k] as int;
    // a count at most half the total lies a whole bit below the total
    assert(log2fp(c) <= log2fp(n) - ENT_SCALE) by {
        crate::logfp::lemma_log2fp_double(c);
        crate::logfp::lemma_log2fp_mono(2 * c, n);
    }
    lemma_sum_cl_bound_except(cs, n, k);
    assert(c * log2fp(c as int) <= c * (log2fp(n) - ENT_SCALE)) by {
        lemma_mul_inequality(log2fp(c), log2fp(n) - ENT_SCALE, c);
        lemma_mul_is_commutative(log2fp(c), c);
        lemma_mul_is_commutative(log2fp(n) - ENT_SCALE, c);
    }
    assert((n - c) * log2fp(n) + c * (log2fp(n) - ENT_SCALE) == n * log2fp(n) - c * ENT_SCALE)
        by (nonlinear_arith);
    assert(c * ENT_SCALE >= 1 * ENT_SCALE) by {
        lemma_mul_inequality(1, c, ENT_SCALE as int);
    }
    assert(went_counts(cs, n) >= ENT_SCALE);
    assert(ent_counts(cs, n) >= 1) by {
        assert((n * 1) / n == 1) by {
            lemma_div_multiples_vanish(1, n);
            lemma_mul_is_commutative(n, 1);
        }
        lemma_div_is_ordered(n, went_counts(cs, n), n);
        assert(n * 1 == n);
    }
}

/// A constant label sequence has zero entropy: its distribution is a single
/// point mass.
pub proof fn lemma_wentropy_point_mass(s: Seq<i64>)
    requires
        s.len() >= 1,
        forall|i: int| 0 <= i < s.len() ==> #[trigger] s[i] == s[0],
    ensures
        wentropy(s) == 0,
        entropy_of(s) == 0,
    decreases s.len(),
{
    let v = s[0];
    lemma_firsts_constant(s);
    lemma_count_constant(s);
    let f = firsts(s);
    assert(f.len() == 1 && f.last() == v);
    assert(f.drop_last() =~= Seq::<i64>::empty());
    assert(sum_cl_keys(s, f.drop_last()) == 0);
    assert(sum_cl_keys(s, f) == sum_cl_keys(s, f.drop_last()) + count_of(s, f.last()) * log2fp(
        count_of(s, f.last()),
    ));
    assert(count_of(s, v) == s.len());
    assert(wentropy(s) == 0);
    assert(0int / (s.len() as int) == 0) by {
        lemma_div_multiples_vanish(0, s.len() as int);
    }
}

/// The distinct values of a constant sequence are that one value.
proof fn lemma_firsts_constant(s: Seq<i64>)
    requires
        s.len() >= 1,
        forall|i: int| 0 <= i < s.len() ==> #[trigger] s[i] == s[0],
    ensures
        firsts(s) == seq![s[0]],
    decreases s.len(),
{
    if s.len() == 1 {
        assert(firsts(s.drop_last()) =~= Seq::<i64>::empty());
        assert(firsts(s) =~= seq![s[0]]);
    } else {
        let sd = s.drop_last();
        assert(forall|i: int| 0 <= i < sd.len() ==> #[trigger] sd[i] == sd[0]);
        lemma_firsts_constant(sd);
        assert(firsts(sd)[0] == s[0]);
        assert(firsts(sd).contains(s.last()));
        assert(firsts(s) == firsts(sd));
    }
}

/// Every element of a constant sequence is that value, `len` times.
proof fn lemma_count_constant(s: Seq<i64>)
    requires
        forall|i: int| 0 <= i < s.len() ==> #[trigger] s[i] == s[0],
    ensures
        s.len() >= 1 ==> count_of(s, s[0]) == s.len(),
    decreases s.len(),
{
    if s.len() == 1 {
        assert(s[s.len() - 1] == s[0]);
        assert(s.last() == s[0]);
        assert(s.drop_last().len() == 0);
        assert(count_of(s.drop_last(), s[0]) == 0);
    } else if s.len() > 1 {
        let sd = s.drop_last();
        assert(forall|i: int| 0 <= i < sd.len() ==> #[trigger] sd[i] == sd[0]);
        lemma_count_constant(sd);
        assert(sd[0] == s[0]);
        assert(s[s.len() - 1] == s[0]);
        assert(s.last() == s[0]);
    }
}

/// Entropy of a uniform distribution over `k` values, each with count `c`,
/// is exactly `log2fp(k * c) - log2fp(c)`; with each value observed once
/// (`c == 1`) that is `log2fp(k)`, the fixed-point base-2 logarithm of the
/// number of distinct values.
pub proof fn lemma_entropy_uniform(cs: Seq<u64>, c: u64, k: int)
    requires
        cs.len() == k,
        k >= 1,
        c >= 1,
        forall|i: int| 0 <= i < cs.len() ==> cs[i] == c,
        k * c <= MAX_SAMPLES,
    ensures
        ent_counts(cs, k * c) == log2fp(k * c) - log2fp(c as int),
        c == 1 ==> ent_counts(cs, k * c) == log2fp(k),
{
    let n = k * c;
    lemma_sum_cl_uniform(cs, c);
    assert(sum_cl(cs) == k * (c * log2fp(c as int)));
    assert(n * log2fp(n) - k * (c * log2fp(c as int)) == n * (log2fp(n) - log2fp(c as int)))
        by (nonlinear_arith)
        requires
            n == k * c,
    ;
    assert((n * (log2fp(n) - log2fp(c as int))) / n == log2fp(n) - log2fp(c as int)) by {
        lemma_mul_nonnegative(k - 1 + 1, c as int);
        assert(n >= 1) by (nonlinear_arith)
            requires
                k >= 1,
                c >= 1,
                n == k * c,
        ;
        lemma_div_multiples_vanish(log2fp(n) - log2fp(c as int), n);
        lemma_mul_is_commutative(n, log2fp(n) - log2fp(c as int));
    }
    if c == 1 {
        lemma_log2fp_one();
    }
}

/// `sum_cl` of a vector of `k` equal counts `c` is `k * (c * log2fp(c))`.
proof fn lemma_sum_cl_uniform(cs: Seq<u64>, c: u64)
    requires
        forall|i: int| 0 <= i < cs.len() ==> cs[i] == c,
    ensures
        sum_cl(cs) == cs.len() * (c * log2fp(c as int)),
    decreases cs.len(),
{
    if cs.len() == 0 {
    } else {
        let cd = cs.drop_last();
        assert(forall|i: int| 0 <= i < cd.len() ==> cd[i] == c);
        lemma_sum_cl_uniform(cd, c);
        lemma_mul_is_distributive_add_other_way(c * log2fp(c as int), cd.len() as int, 1);
    }
}

/// Doubling every count doubles the count-weighted log sum and adds one bit
/// per sample.
proof fn lemma_sum_cl_keys_double(l: Seq<i64>, ks: Seq<i64>)
    requires
        l.len() <= MAX_SAMPLES,
    ensures
        sum_cl_keys(l + l, ks) == 2 * sum_cl_keys(l, ks) + 2 * ENT_SCALE * sum_counts(l, ks),
    decreases ks.len(),
{
    if ks.len() > 0 {
        let kd = ks.drop_last();
        lemma_sum_cl_keys_double(l, kd);
        let k = ks.last();
        let c = count_of(l, k);
        crate::dist::lemma_count_concat(l, l, k);
        lemma_count_bounds(l, k);
        assert(count_of(l + l, k) == 2 * c);
        if c == 0 {
            assert(log2fp(0) == 0);
        } else {
            crate::logfp::lemma_log2fp_double(c);
            assert((2 * c) * log2fp(2 * c) == 2 * (c * log2fp(c)) + 2 * ENT_SCALE * c)
                by (nonlinear_arith)
                requires
                    log2fp(2 * c) == log2fp(c) + ENT_SCALE,
            ;
        }
    }
}

/// Duplicating a label sequence doubles its count-weighted entropy: the
/// empirical distribution is unchanged, the weight doubles.
pub proof fn lemma_wentropy_double(l: Seq<i64>)
    requires
        1 <= l.len() <= MAX_SAMPLES,
    ensures
        wentropy(l + l) == 2 * wentropy(l),
{
    let n = l.len() as int;
    assert(forall|j: int| 0 <= j < l.len() ==> l.contains(#[trigger] l[j]));
    crate::dist::lemma_firsts_concat_subsumed(l, l);
    assert(firsts(l + l) == firsts(l));
    lemma_sum_cl_keys_double(l, firsts(l));
    lemma_counts_total(l);
    crate::logfp::lemma_log2fp_double(n);
    assert((l + l).len() == 2 * n);
    assert((2 * n) * log2fp(2 * n) == 2 * (n * log2fp(n)) + 2 * ENT_SCALE * n)
        by (nonlinear_arith)
        requires
            log2fp(2 * n) == log2fp(n) + ENT_SCALE,
    ;
}

/// A prefix of a count vector sums to no more than the whole.
proof fn lemma_sum_vec_prefix(cs: Seq<u64>, j: int)
    requires
        0 <= j <= cs.len(),
    ensures
        sum_vec(cs.subrange(0, j)) <= sum_vec(cs),
        sum_vec(cs.subrange(0, j)) >= 0,
    decreases cs.len() - j,
{
    lemma_sum_vec_nonneg(cs.subrange(0, j));
    if j == cs.len() {
        assert(cs.subrange(0, j) =~= cs);
    } else {
        lemma_sum_vec_prefix(cs, j + 1);
        let a = cs.subrange(0, j + 1);
        assert(a.drop_last() =~= cs.subrange(0, j));
        assert(sum_vec(a) == sum_vec(cs.subrange(0, j)) + a.last());
    }
}

/// A sum of counts is nonnegative.
proof fn lemma_sum_vec_nonneg(cs: Seq<u64>)
    ensures
        sum_vec(cs) >= 0,
    decreases cs.len(),
{
    if cs.len() > 0 {
        lemma_sum_vec_nonneg(cs.drop_last());
    }
}

/// Computes `sum_cl` of the counts of a well-formed distribution.
fn sum_cl_exec(d: &Distribution) -> (acc: u64)
    requires
        d.wf(),
    ensures
        acc == sum_cl(d.counts@),
        acc <= d.total * (21 * ENT_SCALE),
{
    let n = d.total;
    let mut acc: u64 = 0;
    let mut j: usize = 0;
    proof {
        lemma_log2fp_bound(n as int);
    }
    while j < d.counts.len()
        invariant
            d.wf(),
            j <= d.counts@.len(),
            n == d.total,
            acc == sum_cl(d.counts@.subrange(0, j as int)),
            acc <= sum_vec(d.counts@.subrange(0, j as int)) * (21 * ENT_SCALE),
            sum_vec(d.counts@.subrange(0, j as int)) <= n,
        decreases d.counts@.len() - j,
    {
        let c = d.counts[j];
        proof {
            let pre = d.counts@.subrange(0, j as int);
            let post = d.counts@.subrange(0, j as int + 1);
            assert(post.drop_last() =~= pre);
            assert(post.last() == c);
            lemma_log2fp_bound(c as int);
            lemma_log2fp_mono(c as int, n as int);
            lemma_log2fp_bound(n as int);
            lemma_mul_nonnegative(c as int, log2fp(c as int));
            lemma_mul_inequality(log2fp(c as int), 21 * ENT_SCALE, c as int);
            lemma_mul_is_commutative(log2fp(c as int), c as int);
            lemma_mul_is_commutative(21 * ENT_SCALE, c as int);
            lemma_mul_is_distributive_add_other_way(21 * ENT_SCALE, sum_vec(pre), c as int);
            lemma_sum_vec_prefix(d.counts@, j as int + 1);
            assert(sum_vec(post) == sum_vec(pre) + c);
            assert(sum_vec(d.counts@.subrange(0, d.counts@.len() as int)) == sum_vec(d.counts@))
                by {
                assert(d.counts@.subrange(0, d.counts@.len() as int) =~= d.counts@);
            }
            assert(sum_vec(post) <= n);
            assert(c * (21 * ENT_SCALE) <= n * (21 * ENT_SCALE)) by {
                lemma_mul_inequality(c as int, n as int, 21 * ENT_SCALE);
            }
        }
        let l = log2_fixed(c);
        proof {
            let pre = d.counts@.subrange(0, j as int);
            let post = d.counts@.subrange(0, j as int + 1);
            assert(c * (l as u64) <= c * (21 * ENT_SCALE));
            assert(acc + c * (l as u64) <= sum_vec(post) * (21 * ENT_SCALE));
            assert(sum_vec(post) * (21 * ENT_SCALE) <= n * (21 * ENT_SCALE)) by {
                lemma_mul_inequality(sum_vec(post), n as int, 21 * ENT_SCALE);
            }
            assert(n * (21 * ENT_SCALE) <= 0x100000 * (21 * 0x4000_0000)) by {
                lemma_mul_inequality(n as int, 0x100000, 21 * ENT_SCALE);
            }
        }
        acc = acc + c * (l as u64);
        j = j + 1;
    }
    proof {
        assert(d.counts@.subrange(0, d.counts@.len() as int) =~= d.counts@);
        assert(sum_vec(d.counts@) == d.total);
        lemma_mul_inequality(sum_vec(d.counts@.subrange(0, j as int)), n as int, 21 * ENT_SCALE);
    }
    acc
}

/// Shannon entropy of a distribution, scaled by `ENT_SCALE`: for counts
/// `c_1..c_m` summing to `n`, the floor of
/// `(n * log2fp(n) - sum of c_i * log2fp(c_i)) / n`, which equals
/// `-(sum of p_i * log2(p_i))` over the probabilities `p_i = c_i / n` up to
/// the fixed-point approximation of the logarithm.
pub fn entropy(dist: &Distribution) -> (r: i64)
    requires
        dist.wf(),
    ensures
        r == ent_counts(dist.counts@, dist.total as int),
        0 <= r < 21 * ENT_SCALE,
{
    let n = dist.total;
    let acc = sum_cl_exec(dist);
    let l = log2_fixed(n);
    proof {
        lemma_log2fp_bound(n as int);
        lemma_sum_cl_bound(dist.counts@, n as int);
        assert(sum_vec(dist.counts@) == n);
        assert(acc <= n * log2fp(n as int));
        assert(n * log2fp(n as int) <= MAX_SAMPLES * (21 * ENT_SCALE)) by {
            lemma_mul_inequality(log2fp(n as int), 21 * ENT_SCALE, n as int);
            lemma_mul_is_commutative(log2fp(n as int), n as int);
            lemma_mul_is_commutative(21 * ENT_SCALE, n as int);
            lemma_mul_inequality(n as int, MAX_SAMPLES as int, 21 * ENT_SCALE);
        }
        assert((n * log2fp(n as int) - acc) / (n as int) < 21 * ENT_SCALE) by {
            lemma_div_is_ordered(n * log2fp(n as int) - acc, n * log2fp(n as int), n as int);
            lemma_mul_is_commutative(n as int, log2fp(n as int));
            lemma_div_multiples_vanish(log2fp(n as int), n as int);
        }
        assert((n * log2fp(n as int) - acc) / (n as int) >= 0) by {
            lemma_div_is_ordered(0, n * log2fp(n as int) - acc, n as int);
            lemma_div_multiples_vanish(0, n as int);
        }
    }
    let num = n * (l as u64) - acc;
    (num / n) as i64
}

/// Gini impurity of a single-point-mass distribution is 0.
pub proof fn lemma_gini_point_mass(n: u64)
    requires
        1 <= n,
    ensures
        gini_counts(seq![n], n as int) == 0,
{
    let q = seq![n];
    assert(q.len() == 1 && q.last() == n);
    assert(q.drop_last() =~= Seq::<u64>::empty());
    assert(sum_sq(q.drop_last()) == 0);
    assert(sum_sq(q) == sum_sq(q.drop_last()) + q.last() * q.last());
    assert(sum_sq(q) == n * n);
    lemma_mul_nonnegative(n as int, n as int);
    assert(n * n >= 1) by {
        lemma_mul_inequality(1, n as int, n as int);
    }
    assert(ENT_SCALE * ((n * n) - (n * n)) == 0);
    assert(0int / (n * n) == 0) by {
        lemma_div_multiples_vanish(0, n * n);
    }
}

/// Squared counts sum to at most the square of the total.
proof fn lemma_sum_sq_le_square(cs: Seq<u64>)
    ensures
        0 <= sum_sq(cs) <= sum_vec(cs) * sum_vec(cs),
    decreases cs.len(),
{
    if cs.len() > 0 {
        let cd = cs.drop_last();
        let c = cs.last() as int;
        lemma_sum_sq_le_square(cd);
        lemma_sum_vec_nonneg(cd);
        assert((sum_vec(cd) + c) * (sum_vec(cd) + c) >= sum_vec(cd) * sum_vec(cd) + c * c)
            by (nonlinear_arith)
            requires
                sum_vec(cd) >= 0,
                c >= 0,
        ;
    }
}

/// Squared counts, keeping one index exact: the rest square to at most the
/// square of their sum.
proof fn lemma_sum_sq_except(cs: Seq<u64>, k: int)
    requires
        0 <= k < cs.len(),
    ensures
        sum_sq(cs) <= cs[k] * cs[k] + (sum_vec(cs) - cs[k]) * (sum_vec(cs) - cs[k]),
        sum_vec(cs) >= cs[k],
    decreases cs.len(),
{
    lemma_sum_vec_nonneg(cs.drop_last());
    let cd = cs.drop_last();
    let c = cs.last() as int;
    if k == cs.len() - 1 {
        lemma_sum_sq_le_square(cd);
    } else {
        lemma_sum_sq_except(cd, k);
        let a = sum_vec(cd) - cd[k];
        assert(cd[k] == cs[k]);
        assert((a + c) * (a + c) >= a * a + c * c) by (nonlinear_arith)
            requires
                a >= 0,
                c >= 0,
        ;
    }
}

/// Gini impurity of a distribution over at least two values is strictly
/// positive: together with `lemma_gini_point_mass`, Gini impurity is zero
/// exactly on a single point mass.
pub proof fn lemma_gini_positive_when_mixed(cs: Seq<u64>, n: int)
    requires
        2 <= n <= MAX_SAMPLES,
        cs.len() >= 2,
        forall|j: int| 0 <= j < cs.len() ==> 1 <= #[trigger] cs[j] <= n,
        sum_vec(cs) == n,
    ensures
        gini_counts(cs, n) >= 1,
{
    lemma_sum_sq_except(cs, 0);
    let c = cs[0] as int;
    assert(c <= n - 1) by {
        lemma_sum_vec_prefix(cs, 2);
        let two = cs.subrange(0, 2);
        assert(two.drop_last() =~= cs.subrange(0, 1));
        assert(cs.subrange(0, 1).drop_last() =~= Seq::<u64>::empty());
        assert(sum_vec(Seq::<u64>::empty()) == 0);
        assert(sum_vec(cs.subrange(0, 1)) == cs[0]);
        assert(sum_vec(two) == cs[0] + cs[1]);
    }
    let num = n * n - sum_sq(cs);
    assert(n * n - c * c - (n - c) * (n - c) == 2 * c * (n - c)) by (nonlinear_arith);
    assert(2 * c * (n - c) >= 2 * (n - 1)) by (nonlinear_arith)
        requires
            1 <= c <= n - 1,
    ;
    assert(num >= 2 * (n - 1));
    // ENT_SCALE * 2 * (n - 1) >= n * n for n up to MAX_SAMPLES
    assert(ENT_SCALE * (2 * (n - 1)) >= n * n) by (nonlinear_arith)
        requires
            2 <= n <= 0x100000,
            ENT_SCALE == 0x4000_0000,
    ;
    assert(ENT_SCALE * num >= ENT_SCALE * (2 * (n - 1))) by {
        lemma_mul_inequality(2 * (n - 1), num, ENT_SCALE as int);
        lemma_mul_is_commutative(2 * (n - 1), ENT_SCALE as int);
        lemma_mul_is_commutative(num, ENT_SCALE as int);
    }
    assert(n * n >= 1) by {
        lemma_mul_inequality(1, n, n);
    }
    assert(gini_counts(cs, n) >= 1) by {
        assert(((n * n) * 1) / (n * n) == 1) by {
            lemma_div_multiples_vanish(1, n * n);
            lemma_mul_is_commutative(n * n, 1);
        }
        lemma_div_is_ordered(n * n, ENT_SCALE * num, n * n);
        assert((n * n) * 1 == n * n);
    }
}

/// Squared counts sum to at most `sum_vec * n` when every count is at most
/// `n`.
proof fn lemma_sum_sq_bound(cs: Seq<u64>, n: int)
    requires
        n >= 0,
        forall|k: int| 0 <= k < cs.len() ==> #[trigger] cs[k] <= n,
    ensures
        0 <= sum_sq(cs) <= sum_vec(cs) * n,
    decreases cs.len(),
{
    if cs.len() > 0 {
        let cd = cs.drop_last();
        let c = cs.last() as int;
        assert(forall|k: int| 0 <= k < cd.len() ==> #[trigger] cd[k] <= n) by {
            assert(forall|k: int| 0 <= k < cd.len() ==> cd[k] == cs[k]);
        }
        lemma_sum_sq_bound(cd, n);
        lemma_mul_nonnegative(c, c);
        lemma_mul_inequality(c, n, c);
        lemma_mul_is_commutative(n, c);
        lemma_mul_is_distributive_add_other_way(n, sum_vec(cd), c);
    }
}

/// Gini impurity of a distribution, scaled by `ENT_SCALE`: the floor of
/// `ENT_SCALE * (1 - sum of (c_i / n)^2)`. An alternative impurity metric;
/// the Tree Builder uses entropy exclusively.
pub fn gini(dist: &Distribution) -> (r: i64)
    requires
        dist.wf(),
    ensures
        r == gini_counts(dist.counts@, dist.total as int),
        0 <= r <= ENT_SCALE,
{
    let n = dist.total;
    let mut acc: u64 = 0;
    let mut j: usize = 0;
    while j < dist.counts.len()
        invariant
            dist.wf(),
            j <= dist.counts@.len(),
            n == dist.total,
            acc == sum_sq(dist.counts@.subrange(0, j as int)),
            acc <= sum_vec(dist.counts@.subrange(0, j as int)) * n,
            sum_vec(dist.counts@.subrange(0, j as int)) <= n,
        decreases dist.counts@.len() - j,
    {
        let c = dist.counts[j];
        proof {
            let pre = dist.counts@.subrange(0, j as int);
            let post = dist.counts@.subrange(0, j as int + 1);
            assert(post.drop_last() =~= pre);
            assert(post.last() == c);
            lemma_mul_nonnegative(c as int, c as int);
            lemma_mul_inequality(c as int, n as int, c as int);
            lemma_mul_is_commutative(n as int, c as int);
            lemma_mul_is_distributive_add_other_way(n as int, sum_vec(pre), c as int);
            lemma_sum_vec_prefix(dist.counts@, j as int + 1);
            assert(sum_vec(post) == sum_vec(pre) + c);
            assert(dist.counts@.subrange(0, dist.counts@.len() as int) =~= dist.counts@);
            assert(sum_vec(post) <= n);
            assert(sum_vec(post) * n <= n * n) by {
                lemma_mul_inequality(sum_vec(post), n as int, n as int);
            }
            assert(n * n <= 0x100_0000_0000) by {
                lemma_mul_inequality(n as int, MAX_SAMPLES as int, n as int);
                lemma_mul_inequality(n as int, MAX_SAMPLES as int, MAX_SAMPLES as int);
                lemma_mul_is_commutative(n as int, MAX_SAMPLES as int);
            }
        }
        acc = acc + c * c;
        j = j + 1;
    }
    proof {
        assert(dist.counts@.subrange(0, dist.counts@.len() as int) =~= dist.counts@);
        assert(acc == sum_sq(dist.counts@));
        assert(sum_vec(dist.counts@) == n);
        lemma_sum_sq_bound(dist.counts@, n as int);
        assert(n * n <= 0x100_0000_0000) by {
            lemma_mul_inequality(n as int, MAX_SAMPLES as int, n as int);
            lemma_mul_inequality(n as int, MAX_SAMPLES as int, MAX_SAMPLES as int);
            lemma_mul_is_commutative(n as int, MAX_SAMPLES as int);
        }
        assert(n * n >= 1) by {
            lemma_mul_inequality(1, n as int, n as int);
        }
        let num = (n * n - sum_sq(dist.counts@));
        assert(0 <= num <= n * n);
        assert(ENT_SCALE * num <= ENT_SCALE * (n * n)) by {
            lemma_mul_inequality(num, n * n, ENT_SCALE as int);
            lemma_mul_is_commutative(num, ENT_SCALE as int);
            lemma_mul_is_commutative(n * n, ENT_SCALE as int);
        }
        lemma_mul_nonnegative(ENT_SCALE as int, num);
        assert((ENT_SCALE * num) / (n * n) <= ENT_SCALE) by {
            lemma_div_is_ordered(ENT_SCALE * num, ENT_SCALE * (n * n), n * n);
            lemma_div_multiples_vanish(ENT_SCALE as int, n * n);
            lemma_mul_is_commutative(ENT_SCALE as int, n * n);
        }
        assert((ENT_SCALE * num) / (n * n) >= 0) by {
            lemma_div_is_ordered(0, ENT_SCALE * num, n * n);
            lemma_div_multiples_vanish(0, n * n);
        }
    }
    let nn: u64 = n * n;
    let num: u64 = nn - acc;
    let scaled: u128 = (ENT_SCALE as u128) * (num as u128);
    (scaled / (nn as u128)) as i64
}

/// The count-weighted entropy of a label vector: `len` times its Shannon
/// entropy, scaled by `ENT_SCALE`, as an exact integer.
pub fn slice_went(labels: &Vec<i64>) -> (w: i64)
    requires
        1 <= labels@.len() <= MAX_SAMPLES,
    ensures
        w == wentropy(labels@),
        0 <= w <= labels@.len() * (21 * ENT_SCALE),
{
    let d = count_dist(labels);
    let acc = sum_cl_exec(&d);
    let n = d.total;
    let l = log2_fixed(n);
    proof {
        lemma_sum_cl_keys_vec(labels@, firsts(labels@), d.counts@);
        lemma_wentropy_bounds(labels@);
        lemma_log2fp_bound(n as int);
        assert(n * log2fp(n as int) <= MAX_SAMPLES * (21 * ENT_SCALE)) by {
            lemma_mul_inequality(log2fp(n as int), 21 * ENT_SCALE, n as int);
            lemma_mul_is_commutative(log2fp(n as int), n as int);
            lemma_mul_is_commutative(21 * ENT_SCALE, n as int);
            lemma_mul_inequality(n as int, MAX_SAMPLES as int, 21 * ENT_SCALE);
        }
    }
    let num = n * (l as u64) - acc;
    num as i64
}

/// Entropy of the label column of a subset, scaled by `ENT_SCALE`: the
/// Distribution Estimator applied to the truncated labels, then the Shannon
/// entropy of the result.
pub fn get_slice_entropy(t: &crate::table::Table, idx: &Vec<usize>, label_i: usize) -> (r: i64)
    requires
        t.wf(),
        crate::table::sub_ok(*t, idx@),
        1 <= idx@.len() <= MAX_SAMPLES,
        label_i < t.width(),
    ensures
        r == entropy_of(crate::table::labels_of(*t, idx@, label_i as int)),
        0 <= r,
{
    let labels = crate::table::labels_range(t, idx, 0, idx.len(), label_i);
    proof {
        assert(idx@.subrange(0, idx@.len() as int) =~= idx@);
        crate::table::lemma_labels_of_index(*t, idx@, label_i as int);
    }
    let w = slice_went(&labels);
    let n = labels.len() as u64;
    proof {
        let s = labels@;
        lemma_wentropy_bounds(s);
        assert(wentropy(s) / (s.len() as int) >= 0) by {
            lemma_div_is_ordered(0, wentropy(s), s.len() as int);
            lemma_div_multiples_vanish(0, s.len() as int);
        }
    }
    ((w as u64) / n) as i64
}

} // verus!
