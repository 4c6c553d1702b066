//! The Distribution Estimator: turns a sequence of discrete values into a
//! normalized empirical frequency distribution.
//!
//! Probabilities are exact rationals `count / total`; a [`Distribution`]
//! stores each distinct value with its occurrence count together with the
//! total, so "the probabilities sum to one" is the exact integer statement
//! that the counts sum to the total.

use vstd::prelude::*;

verus! {

use crate::table::MAX_SAMPLES;

/// How often `v` occurs in `s`.
pub open spec fn count_of(s: Seq<i64>, v: i64) -> int
    decreases s.len(),
{
    if s.len() == 0 {
        0
    } else {
        count_of(s.drop_last(), v) + if s.last() == v {
            1int
        } else {
            0int
        }
    }
}

/// The distinct values of `s`, in order of first occurrence.
pub open spec fn firsts(s: Seq<i64>) -> Seq<i64>
    decreases s.len(),
{
    if s.len() == 0 {
        Seq::empty()
    } else {
        let f = firsts(s.drop_last());
        if f.contains(s.last()) {
            f
        } else {
            f.push(s.last())
        }
    }
}

/// Sum of the occurrence counts in `s` of the values listed in `ks`.
pub open spec fn sum_counts(s: Seq<i64>, ks: Seq<i64>) -> int
    decreases ks.len(),
{
    if ks.len() == 0 {
        0
    } else {
        sum_counts(s, ks.drop_last()) + count_of(s, ks.last())
    }
}

/// A count is between 0 and the sequence's length.
pub proof fn lemma_count_bounds(s: Seq<i64>, v: i64)
    ensures
        0 <= count_of(s, v) <= s.len(),
    decreases s.len(),
{
    if s.len() > 0 {
        lemma_count_bounds(s.drop_last(), v);
    }
}

/// A value occurs in `s` exactly when its count is positive.
pub proof fn lemma_count_pos(s: Seq<i64>, v: i64)
    ensures
        s.contains(v) <==> count_of(s, v) >= 1,
    decreases s.len(),
{
    lemma_count_bounds(s, v);
    if s.len() > 0 {
        lemma_count_bounds(s.drop_last(), v);
        lemma_count_pos(s.drop_last(), v);
        if s.last() == v {
            assert(s[s.len() - 1] == v);
            assert(s.contains(v));
        } else {
            if s.contains(v) {
                let i = choose|i: int| 0 <= i < s.len() && s[i] == v;
                assert(s.drop_last()[i] == v);
                assert(s.drop_last().contains(v));
            }
            if s.drop_last().contains(v) {
                let i = choose|i: int| 0 <= i < s.len() - 1 && s.drop_last()[i] == v;
                assert(s[i] == v);
                assert(s.contains(v));
            }
        }
    }
}

/// Pushing an element raises its own count by one and keeps the others.
pub proof fn lemma_count_push(s: Seq<i64>, x: i64, v: i64)
    ensures
        count_of(s.push(x), v) == count_of(s, v) + if x == v {
            1int
        } else {
            0int
        },
{
    assert(s.push(x).drop_last() =~= s);
}

/// The distinct values of `s.push(x)`.
pub proof fn lemma_firsts_push(s: Seq<i64>, x: i64)
    ensures
        firsts(s.push(x)) == if firsts(s).contains(x) {
            firsts(s)
        } else {
            firsts(s).push(x)
        },
{
    assert(s.push(x).drop_last() =~= s);
}

/// `firsts(s)` holds exactly the values of `s`.
pub proof fn lemma_firsts_complete(s: Seq<i64>, v: i64)
    ensures
        firsts(s).contains(v) <==> s.contains(v),
    decreases s.len(),
{
    if s.len() > 0 {
        lemma_firsts_complete(s.drop_last(), v);
        let f = firsts(s.drop_last());
        if s.contains(v) && s.last() != v {
            let i = choose|i: int| 0 <= i < s.len() && s[i] == v;
            assert(s.drop_last()[i] == v);
        }
        if s.drop_last().contains(v) {
            let i = choose|i: int| 0 <= i < s.len() - 1 && s.drop_last()[i] == v;
            assert(s[i] == v);
        }
        if !f.contains(s.last()) {
            let g = f.push(s.last());
            if s.contains(v) {
                if s.last() == v {
                    assert(g[g.len() - 1] == v);
                } else {
                    let i = choose|i: int| 0 <= i < f.len() && f[i] == v;
                    assert(g[i] == v);
                }
            }
            if g.contains(v) {
                let i = choose|i: int| 0 <= i < g.len() && g[i] == v;
            }
        }
    }
}

/// The distinct values are pairwise distinct.
pub proof fn lemma_firsts_distinct(s: Seq<i64>)
    ensures
        forall|i: int, j: int|
            0 <= i < j < firsts(s).len() ==> firsts(s)[i] != firsts(s)[j],
    decreases s.len(),
{
    if s.len() > 0 {
        lemma_firsts_distinct(s.drop_last());
        let f = firsts(s.drop_last());
        if !f.contains(s.last()) {
            let g = f.push(s.last());
            assert forall|i: int, j: int| 0 <= i < j < g.len() implies g[i] != g[j] by {
                if j < g.len() - 1 {
                    assert(g[i] == f[i] && g[j] == f[j]);
                } else {
                    assert(g[j] == s.last());
                    if g[i] == s.last() {
                        assert(f[i] == s.last());
                        assert(f.contains(s.last()));
                    }
                }
            }
        }
    }
}

/// Pushing `x` raises the total of the counts over a distinct key list by one
/// exactly when the list holds `x`.
proof fn lemma_sum_counts_push(s: Seq<i64>, x: i64, ks: Seq<i64>)
    requires
        forall|i: int, j: int| 0 <= i < j < ks.len() ==> ks[i] != ks[j],
    ensures
        sum_counts(s.push(x), ks) == sum_counts(s, ks) + if ks.contains(x) {
            1int
        } else {
            0int
        },
    decreases ks.len(),
{
    if ks.len() > 0 {
        let kd = ks.drop_last();
        assert(forall|i: int, j: int| 0 <= i < j < kd.len() ==> kd[i] != kd[j]) by {
            assert(forall|i: int| 0 <= i < kd.len() ==> kd[i] == ks[i]);
        }
        lemma_sum_counts_push(s, x, kd);
        lemma_count_push(s, x, ks.last());
        if ks.contains(x) {
            let i = choose|i: int| 0 <= i < ks.len() && ks[i] == x;
            if i == ks.len() - 1 {
                assert(!kd.contains(x)) by {
                    if kd.contains(x) {
                        let j = choose|j: int| 0 <= j < kd.len() && kd[j] == x;
                        assert(ks[j] == x);
                    }
                }
            } else {
                assert(kd[i] == x);
                assert(ks.last() != x);
            }
        } else {
            assert(!kd.contains(x)) by {
                if kd.contains(x) {
                    let j = choose|j: int| 0 <= j < kd.len() && kd[j] == x;
                    assert(ks[j] == x);
                }
            }
            assert(ks.last() != x) by {
                if ks.last() == x {
                    assert(ks[ks.len() - 1] == x);
                }
            }
        }
    }
}

/// Adding a key to the list adds that key's count to the total.
proof fn lemma_sum_counts_push_key(s: Seq<i64>, ks: Seq<i64>, k: i64)
    ensures
        sum_counts(s, ks.push(k)) == sum_counts(s, ks) + count_of(s, k),
{
    assert(ks.push(k).drop_last() =~= ks);
}

/// The occurrence counts of the distinct values of a sequence sum to its
/// length: the empirical probabilities `count / length` sum to one.
pub proof fn lemma_counts_total(s: Seq<i64>)
    ensures
        sum_counts(s, firsts(s)) == s.len(),
    decreases s.len(),
{
    if s.len() > 0 {
        let sd = s.drop_last();
        let x = s.last();
        lemma_counts_total(sd);
        lemma_firsts_distinct(sd);
        lemma_sum_counts_push(sd, x, firsts(sd));
        assert(sd.push(x) =~= s);
        assert(sum_counts(s, firsts(sd)) == sum_counts(sd, firsts(sd)) + if firsts(sd).contains(
            x,
        ) {
            1int
        } else {
            0int
        });
        if firsts(sd).contains(x) {
            assert(firsts(s) == firsts(sd));
            assert(sum_counts(s, firsts(s)) == sd.len() + 1);
        } else {
            assert(firsts(s) == firsts(sd).push(x));
            lemma_sum_counts_push_key(s, firsts(sd), x);
            lemma_firsts_complete(sd, x);
            lemma_count_bounds(sd, x);
            lemma_count_pos(sd, x);
            lemma_count_push(sd, x, x);
            assert(count_of(s, x) == 1);
            assert(sum_counts(s, firsts(s)) == sum_counts(s, firsts(sd)) + 1);
        }
    }
}

/// Counts add over concatenation.
pub proof fn lemma_count_concat(a: Seq<i64>, b: Seq<i64>, v: i64)
    ensures
        count_of(a + b, v) == count_of(a, v) + count_of(b, v),
    decreases b.len(),
{
    if b.len() == 0 {
        assert(a + b =~= a);
    } else {
        lemma_count_concat(a, b.drop_last(), v);
        assert((a + b).drop_last() =~= a + b.drop_last());
        assert((a + b).last() == b.last());
    }
}

/// Appending values that all occur in `a` adds no new distinct value.
pub proof fn lemma_firsts_concat_subsumed(a: Seq<i64>, b: Seq<i64>)
    requires
        forall|j: int| 0 <= j < b.len() ==> a.contains(#[trigger] b[j]),
    ensures
        firsts(a + b) == firsts(a),
    decreases b.len(),
{
    if b.len() == 0 {
        assert(a + b =~= a);
    } else {
        let bd = b.drop_last();
        assert(forall|j: int| 0 <= j < bd.len() ==> a.contains(#[trigger] bd[j])) by {
            assert(forall|j: int| 0 <= j < bd.len() ==> bd[j] == b[j]);
        }
        lemma_firsts_concat_subsumed(a, bd);
        assert((a + b).drop_last() =~= a + bd);
        assert((a + b).last() == b.last());
        assert(a.contains(b[b.len() - 1]));
        lemma_firsts_complete(a, b.last());
        assert(firsts(a).contains(b.last()));
    }
}

/// The probabilities of a nonempty empirical distribution sum to one and each
/// lies in `[0, 1]`: over the distinct values, the counts sum to the length,
/// and each count is between 1 and the length.
pub proof fn lemma_distribution_sums_to_one(s: Seq<i64>)
    requires
        s.len() >= 1,
    ensures
        sum_counts(s, firsts(s)) == s.len(),
        forall|k: int|
            0 <= k < firsts(s).len() ==> 1 <= #[trigger] count_of(s, firsts(s)[k]) <= s.len(),
{
    lemma_counts_total(s);
    assert forall|k: int|
        0 <= k < firsts(s).len() implies 1 <= #[trigger] count_of(s, firsts(s)[k]) <= s.len() by {
        lemma_count_bounds(s, firsts(s)[k]);
        lemma_count_pos(s, firsts(s)[k]);
        lemma_firsts_complete(s, firsts(s)[k]);
        assert(firsts(s).contains(firsts(s)[k]));
    }
}

/// A normalized empirical frequency distribution: each distinct observed
/// value with its occurrence count, and the total number of observations.
/// The probability of `values[k]` is the exact rational `counts[k] / total`.
pub struct Distribution {
    pub values: Vec<i64>,
    pub counts: Vec<u64>,
    pub total: u64,
}

impl Distribution {
    /// This distribution is the empirical distribution of `s`.
    pub open spec fn represents(self, s: Seq<i64>) -> bool {
        &&& self.values@ == firsts(s)
        &&& self.counts@.len() == self.values@.len()
        &&& forall|k: int|
            0 <= k < self.counts@.len() ==> #[trigger] self.counts@[k] == count_of(
                s,
                self.values@[k],
            )
        &&& self.total == s.len()
    }

    /// Shape of a distribution built from a nonempty, bounded sequence: the
    /// counts are positive, sum to the total, and the total is in range.
    pub open spec fn wf(self) -> bool {
        &&& 1 <= self.total <= MAX_SAMPLES
        &&& self.counts@.len() == self.values@.len()
        &&& self.values@.len() >= 1
        &&& forall|k: int| 0 <= k < self.counts@.len() ==> 1 <= #[trigger] self.counts@[k]
            <= self.total
        &&& sum_vec(self.counts@) == self.total
    }
}

/// Sum of a vector of counts.
pub open spec fn sum_vec(cs: Seq<u64>) -> int
    decreases cs.len(),
{
    if cs.len() == 0 {
        0
    } else {
        sum_vec(cs.drop_last()) + cs.last()
    }
}

/// A vector of counts that mirrors `count_of` over a key list sums to the
/// same total.
proof fn lemma_sum_vec_counts(s: Seq<i64>, ks: Seq<i64>, cs: Seq<u64>)
    requires
        cs.len() == ks.len(),
        forall|k: int| 0 <= k < cs.len() ==> #[trigger] cs[k] == count_of(s, ks[k]),
    ensures
        sum_vec(cs) == sum_counts(s, ks),
    decreases cs.len(),
{
    if cs.len() > 0 {
        let cd = cs.drop_last();
        let kd = ks.drop_last();
        assert(forall|k: int| 0 <= k < cd.len() ==> #[trigger] cd[k] == count_of(s, kd[k])) by {
            assert(forall|k: int| 0 <= k < cd.len() ==> cd[k] == cs[k] && kd[k] == ks[k]);
        }
        lemma_sum_vec_counts(s, kd, cd);
    }
}

/// Finds `v` in `values`.
fn find_value(values: &Vec<i64>, v: i64) -> (r: Option<usize>)
    ensures
        match r {
            Some(j) => j < values@.len() && values@[j as int] == v,
            None => forall|k: int| 0 <= k < values@.len() ==> values@[k] != v,
        },
{
    let mut j: usize = 0;
    while j < values.len()
        invariant
            j <= values@.len(),
            forall|k: int| 0 <= k < j ==> values@[k] != v,
        decreases values@.len() - j,
    {
        if values[j] == v {
            return Some(j);
        }
        j = j + 1;
    }
    None
}

/// Counts all the instances of each distinct value of `data` and normalizes
/// by the length: the empirical distribution of `data`, with exact rational
/// probabilities `count / total`.
pub fn count_dist(data: &Vec<i64>) -> (d: Distribution)
    requires
        1 <= data@.len() <= MAX_SAMPLES,
    ensures
        d.represents(data@),
        d.wf(),
{
    let n = data.len();
    let mut values: Vec<i64> = Vec::new();
    let mut counts: Vec<u64> = Vec::new();
    let mut i: usize = 0;
    while i < n
        invariant
            i <= n,
            n == data@.len() <= MAX_SAMPLES,
            values@ == firsts(data@.subrange(0, i as int)),
            counts@.len() == values@.len(),
            forall|k: int|
                0 <= k < counts@.len() ==> #[trigger] counts@[k] == count_of(
                    data@.subrange(0, i as int),
                    values@[k],
                ),
        decreases n - i,
    {
        let v = data[i];
        let ghost pre = data@.subrange(0, i as int);
        let ghost post = data@.subrange(0, i as int + 1);
        proof {
            assert(post.drop_last() =~= pre);
            assert(post.last() == data@[i as int]);
            assert(pre.push(v) =~= post);
            lemma_firsts_push(pre, v);
            lemma_firsts_distinct(pre);
        }
        match find_value(&values, v) {
            Some(j) => {
                proof {
                    assert(values@[j as int] == v);
                    assert(firsts(pre).contains(v));
                    lemma_count_bounds(pre, v);
                    assert forall|k: int| 0 <= k < counts@.len() && k != j implies count_of(
                        post,
                        values@[k],
                    ) == count_of(pre, values@[k]) by {
                        lemma_count_push(pre, v, values@[k]);
                    }
                    lemma_count_push(pre, v, v);
                }
                let c = counts[j];
                counts[j] = c + 1;
            },
            None => {
                proof {
                    assert(!firsts(pre).contains(v)) by {
                        if firsts(pre).contains(v) {
                            let k = choose|k: int|
                                0 <= k < firsts(pre).len() && firsts(pre)[k] == v;
                            assert(values@[k] == v);
                        }
                    }
                    lemma_firsts_complete(pre, v);
                    lemma_count_pos(pre, v);
                    lemma_count_bounds(pre, v);
                    lemma_count_push(pre, v, v);
                    assert forall|k: int| 0 <= k < counts@.len() implies count_of(
                        post,
                        values@[k],
                    ) == count_of(pre, values@[k]) by {
                        lemma_count_push(pre, v, values@[k]);
                        assert(firsts(pre).contains(values@[k]));
                    }
                }
                values.push(v);
                counts.push(1);
            },
        }
        i = i + 1;
    }
    proof {
        assert(data@.subrange(0, n as int) =~= data@);
        lemma_distribution_sums_to_one(data@);
        lemma_sum_vec_counts(data@, firsts(data@), counts@);
        assert forall|k: int| 0 <= k < counts@.len() implies 1 <= #[trigger] counts@[k]
            <= data@.len() by {
            assert(counts@[k] == count_of(data@, firsts(data@)[k]));
        }
    }
    Distribution { values, counts, total: n as u64 }
}

} // verus!
