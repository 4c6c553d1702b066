//! The Split Evaluator and the Split Selector.
//!
//! For one feature, the Evaluator sorts the subset in place by that feature,
//! proposes a threshold between every adjacent pair of sorted samples, and
//! keeps the candidate with the strictly greatest information gain; the
//! Selector runs the Evaluator over every non-label feature and keeps the
//! globally best split.
//!
//! Thresholds are kept exact: a `Split`'s `point` is twice the midpoint of
//! the winning adjacent pair, that is the sum of the two neighbouring feature
//! values, and a sample is "below the threshold" when twice its value is
//! below `point`. Gains are kept exact as well: a gain is the count-weighted
//! difference `wentropy(parent) - wentropy(left) - wentropy(right)`, which is
//! the per-sample information gain multiplied by the subset size and
//! `ENT_SCALE`; the subset size is one factor shared by every candidate and
//! every feature at a node, so comparisons and the sign are those of the
//! per-sample gain.

use vstd::prelude::*;

verus! {

use crate::table::{Table, sub_ok, labels_of, labels_range, lemma_labels_of_index, MAX_SAMPLES};
use crate::entropy::{wentropy, slice_went};
use crate::logfp::ENT_SCALE;
use vstd::arithmetic::mul::lemma_mul_inequality;

/// A binary partition rule: samples with `2 * value < point` on `feature` go
/// left, the rest go right, and `gain` is the count-weighted information
/// gain the rule achieved. The zero split (`feature == 0`, `point == 0`,
/// `gain == 0`) is the sentinel for "no improving split found".
#[derive(Debug, Clone, Copy, PartialEq, Eq, Structural)]
pub struct Split {
    pub feature: usize,
    pub point: i64,
    pub gain: i64,
}

impl Split {
    /// The sentinel split.
    pub fn new() -> (s: Split)
        ensures
            s.feature == 0,
            s.point == 0,
            s.gain == 0,
    {
        Split { feature: 0, point: 0, gain: 0 }
    }
}

/// `s` is sorted by feature `f`.
pub open spec fn sorted_by(t: Table, s: Seq<usize>, f: int) -> bool {
    forall|i: int, j: int|
        0 <= i < j < s.len() ==> t.val(s[i] as int, f) <= t.val(s[j] as int, f)
}

/// Stable insertion of row `r` into a sorted row list: `r` goes after every
/// row whose feature value does not exceed its own.
pub open spec fn insert_sorted(t: Table, sorted: Seq<usize>, r: usize, f: int) -> Seq<usize>
    decreases sorted.len(),
{
    if sorted.len() == 0 {
        seq![r]
    } else if t.val(sorted.last() as int, f) <= t.val(r as int, f) {
        sorted.push(r)
    } else {
        insert_sorted(t, sorted.drop_last(), r, f).push(sorted.last())
    }
}

/// Stable insertion sort of a row list by feature `f`.
pub open spec fn insort(t: Table, s: Seq<usize>, f: int) -> Seq<usize>
    decreases s.len(),
{
    if s.len() == 0 {
        Seq::empty()
    } else {
        insert_sorted(t, insort(t, s.drop_last(), f), s.last(), f)
    }
}

/// Inserting keeps the length, the contents and the order.
pub proof fn lemma_insert_sorted_props(t: Table, sorted: Seq<usize>, r: usize, f: int)
    requires
        sorted_by(t, sorted, f),
    ensures
        insert_sorted(t, sorted, r, f).len() == sorted.len() + 1,
        insert_sorted(t, sorted, r, f).to_multiset() == sorted.to_multiset().insert(r),
        sorted_by(t, insert_sorted(t, sorted, r, f), f),
    decreases sorted.len(),
{
    broadcast use vstd::seq_lib::group_to_multiset_ensures;

    let out = insert_sorted(t, sorted, r, f);
    if sorted.len() == 0 {
        assert(seq![r].drop_last() =~= Seq::<usize>::empty());
        assert(Seq::<usize>::empty().push(r).to_multiset() == Seq::<usize>::empty().to_multiset().insert(r));
        assert(seq![r] =~= Seq::<usize>::empty().push(r));
    } else if t.val(sorted.last() as int, f) <= t.val(r as int, f) {
        assert forall|i: int, j: int| 0 <= i < j < out.len() implies t.val(out[i] as int, f)
            <= t.val(out[j] as int, f) by {
            if j < out.len() - 1 {
                assert(out[i] == sorted[i] && out[j] == sorted[j]);
            } else {
                assert(out[j] == r);
                if i < sorted.len() - 1 {
                    assert(out[i] == sorted[i]);
                    assert(t.val(sorted[i] as int, f) <= t.val(sorted.last() as int, f));
                } else {
                    assert(out[i] == sorted.last());
                }
            }
        }
    } else {
        let sd = sorted.drop_last();
        assert(sorted_by(t, sd, f)) by {
            assert(forall|i: int| 0 <= i < sd.len() ==> sd[i] == sorted[i]);
        }
        lemma_insert_sorted_props(t, sd, r, f);
        let inner = insert_sorted(t, sd, r, f);
        // contents: inner holds exactly sd's rows and r
        assert(sd.push(sorted.last()) =~= sorted);
        assert(sd.push(sorted.last()).to_multiset() == sd.to_multiset().insert(sorted.last()));
        assert(sorted.to_multiset() == sd.to_multiset().insert(sorted.last()));
        assert(out.to_multiset() == inner.to_multiset().insert(sorted.last()));
        assert(inner.to_multiset() == sd.to_multiset().insert(r));
        assert(out.to_multiset() == sd.to_multiset().insert(r).insert(sorted.last()));
        assert(sd.to_multiset().insert(r).insert(sorted.last()) =~= sd.to_multiset().insert(
            sorted.last(),
        ).insert(r)) by {
            broadcast use vstd::multiset::axiom_multiset_add, vstd::multiset::axiom_multiset_singleton, vstd::multiset::axiom_multiset_singleton_different;

        }
        // order: every row of inner is one of sd's rows or r, all of whose
        // values stay below the moved last row's value
        assert forall|i: int, j: int| 0 <= i < j < out.len() implies t.val(out[i] as int, f)
            <= t.val(out[j] as int, f) by {
            if j < out.len() - 1 {
                assert(out[i] == inner[i] && out[j] == inner[j]);
            } else {
                assert(out[j] == sorted.last());
                assert(out[i] == inner[i]);
                assert(inner.to_multiset().count(inner[i]) > 0);
                assert(inner.contains(inner[i]));
                assert(sd.to_multiset().insert(r).count(inner[i]) > 0);
                if inner[i] == r {
                    assert(t.val(r as int, f) <= t.val(sorted.last() as int, f));
                } else {
                    assert(sd.to_multiset().count(inner[i]) > 0);
                    assert(sd.contains(inner[i]));
                    let k = choose|k: int| 0 <= k < sd.len() && sd[k] == inner[i];
                    assert(t.val(sorted[k] as int, f) <= t.val(sorted.last() as int, f));
                }
            }
        }
    }
}

/// Sorting keeps the length and the contents and sorts by `f`.
pub proof fn lemma_insort_props(t: Table, s: Seq<usize>, f: int)
    ensures
        insort(t, s, f).len() == s.len(),
        insort(t, s, f).to_multiset() == s.to_multiset(),
        sorted_by(t, insort(t, s, f), f),
    decreases s.len(),
{
    broadcast use vstd::seq_lib::group_to_multiset_ensures;

    if s.len() > 0 {
        lemma_insort_props(t, s.drop_last(), f);
        lemma_insert_sorted_props(t, insort(t, s.drop_last(), f), s.last(), f);
        assert(s.drop_last().push(s.last()) =~= s);
    }
}

/// Contents are kept, so row indices stay in bounds.
pub proof fn lemma_insort_sub_ok(t: Table, s: Seq<usize>, f: int)
    requires
        sub_ok(t, s),
    ensures
        sub_ok(t, insort(t, s, f)),
{
    broadcast use vstd::seq_lib::group_to_multiset_ensures;

    lemma_insort_props(t, s, f);
    let out = insort(t, s, f);
    assert forall|i: int| 0 <= i < out.len() implies (#[trigger] out[i]) < t.rows@.len() by {
        assert(out.contains(out[i]));
        assert(out.to_multiset().count(out[i]) > 0);
        assert(s.to_multiset().count(out[i]) > 0);
        assert(s.contains(out[i]));
        let k = choose|k: int| 0 <= k < s.len() && s[k] == out[i];
    }
}

/// Inserts `r` into a row list sorted by `f`, keeping it sorted and stable.
fn insert_exec(t: &Table, sorted: Vec<usize>, r: usize, f: usize) -> (res: Vec<usize>)
    requires
        t.wf(),
        sub_ok(*t, sorted@),
        r < t.rows@.len(),
        f < t.width(),
    ensures
        res@ == insert_sorted(*t, sorted@, r, f as int),
    decreases sorted@.len(),
{
    let n = sorted.len();
    let mut v = sorted;
    if n == 0 {
        v.push(r);
        proof {
            assert(v@ =~= seq![r]);
        }
        v
    } else {
        let lastv = t.value(v[n - 1], f);
        let rv = t.value(r, f);
        if lastv <= rv {
            v.push(r);
            v
        } else {
            let last = v.pop().unwrap();
            proof {
                assert(sub_ok(*t, v@)) by {
                    assert(forall|i: int| 0 <= i < v@.len() ==> v@[i] == sorted@[i]);
                }
            }
            let mut res = insert_exec(t, v, r, f);
            res.push(last);
            res
        }
    }
}

/// Sorts the subset in place by feature `f`, with a stable insertion sort.
pub fn sort_by_feature(t: &Table, idx: &mut Vec<usize>, f: usize)
    requires
        t.wf(),
        sub_ok(*t, old(idx)@),
        f < t.width(),
    ensures
        final(idx)@ == insort(*t, old(idx)@, f as int),
        final(idx)@.len() == old(idx)@.len(),
        final(idx)@.to_multiset() == old(idx)@.to_multiset(),
        sub_ok(*t, final(idx)@),
        sorted_by(*t, final(idx)@, f as int),
{
    let n = idx.len();
    let mut out: Vec<usize> = Vec::new();
    let mut i: usize = 0;
    proof {
        assert(idx@.subrange(0, 0) =~= Seq::<usize>::empty());
    }
    while i < n
        invariant
            t.wf(),
            sub_ok(*t, idx@),
            f < t.width(),
            i <= n == idx@.len(),
            out@ == insort(*t, idx@.subrange(0, i as int), f as int),
        decreases n - i,
    {
        proof {
            let pre = idx@.subrange(0, i as int);
            let post = idx@.subrange(0, i as int + 1);
            assert(post.drop_last() =~= pre);
            assert(post.last() == idx@[i as int]);
            lemma_insort_sub_ok(*t, pre, f as int);
        }
        let r = idx[i];
        out = insert_exec(t, out, r, f);
        i = i + 1;
    }
    proof {
        assert(idx@.subrange(0, n as int) =~= idx@);
        lemma_insort_props(*t, idx@, f as int);
        lemma_insort_sub_ok(*t, idx@, f as int);
    }
    *idx = out;
}

/// The count-weighted information gain of the candidate split after sorted
/// position `i`: parent weighted entropy minus the weighted entropies of the
/// prefix through `i` and the suffix from `i + 1`.
pub open spec fn cand_gain(t: Table, s: Seq<usize>, i: int, label_i: int) -> int {
    wentropy(labels_of(t, s, label_i)) - wentropy(
        labels_of(t, s.subrange(0, i + 1), label_i),
    ) - wentropy(labels_of(t, s.subrange(i + 1, s.len() as int), label_i))
}

/// Twice the midpoint threshold of the adjacent pair at sorted positions
/// `i`, `i + 1`: the sum of their feature values.
pub open spec fn mid2(t: Table, s: Seq<usize>, i: int, f: int) -> int {
    t.val(s[i] as int, f) + t.val(s[i + 1] as int, f)
}

/// The best of the first `k` candidate splits of the sorted subset `s`:
/// `(gain, point)`, starting from the sentinel `(0, 0)`, replaced only on a
/// strictly greater gain, so the earliest candidate wins ties.
pub open spec fn best_cand(t: Table, s: Seq<usize>, f: int, label_i: int, k: int) -> (int, int)
    decreases k,
{
    if k <= 0 {
        (0, 0)
    } else {
        let prev = best_cand(t, s, f, label_i, k - 1);
        let g = cand_gain(t, s, k - 1, label_i);
        if g > prev.0 {
            (g, mid2(t, s, k - 1, f))
        } else {
            prev
        }
    }
}

/// What the Split Evaluator returns for feature `f`: the best candidate over
/// the subset sorted by `f`.
pub open spec fn fs_spec(t: Table, s: Seq<usize>, f: int, label_i: int) -> (int, int) {
    best_cand(t, insort(t, s, f), f, label_i, s.len() - 1)
}

/// The best candidate's gain is nonnegative; it is zero exactly on the
/// sentinel; and a positive gain names a real candidate that no other
/// candidate strictly beats and no earlier candidate matches.
pub proof fn lemma_best_cand_props(t: Table, s: Seq<usize>, f: int, label_i: int, k: int)
    ensures
        best_cand(t, s, f, label_i, k).0 >= 0,
        best_cand(t, s, f, label_i, k).0 == 0 ==> best_cand(t, s, f, label_i, k).1 == 0,
        best_cand(t, s, f, label_i, k).0 > 0 ==> exists|i: int|
            0 <= i < k && #[trigger] cand_gain(t, s, i, label_i) == best_cand(
                t,
                s,
                f,
                label_i,
                k,
            ).0 && mid2(t, s, i, f) == best_cand(t, s, f, label_i, k).1,
        forall|j: int| 0 <= j < k ==> #[trigger] cand_gain(t, s, j, label_i) <= best_cand(
            t,
            s,
            f,
            label_i,
            k,
        ).0,
    decreases k,
{
    if k > 0 {
        lemma_best_cand_props(t, s, f, label_i, k - 1);
    }
}

/// The Split Evaluator: sorts the subset in place by feature `feature_i`,
/// then returns the best information gain over every adjacent-pair midpoint
/// threshold, together with that threshold, as `(gain, point)`. A subset
/// with no improving candidate reports the sentinel `(0, 0)`.
pub fn feature_split(t: &Table, data: &mut Vec<usize>, feature_i: usize, label_i: usize) -> (r: (
    i64,
    i64,
))
    requires
        t.wf(),
        sub_ok(*t, old(data)@),
        1 <= old(data)@.len() <= MAX_SAMPLES,
        feature_i < t.width(),
        label_i < t.width(),
    ensures
        final(data)@ == insort(*t, old(data)@, feature_i as int),
        final(data)@.len() == old(data)@.len(),
        final(data)@.to_multiset() == old(data)@.to_multiset(),
        sub_ok(*t, final(data)@),
        sorted_by(*t, final(data)@, feature_i as int),
        (r.0 as int, r.1 as int) == fs_spec(*t, old(data)@, feature_i as int, label_i as int),
        r.0 >= 0,
{
    sort_by_feature(t, data, feature_i);
    let n = data.len();
    let all = labels_range(t, data, 0, n, label_i);
    proof {
        assert(data@.subrange(0, n as int) =~= data@);
        lemma_labels_of_index(*t, data@, label_i as int);
    }
    let wp = slice_went(&all);
    let mut best_g: i64 = 0;
    let mut best_p: i64 = 0;
    let mut i: usize = 0;
    proof {
        lemma_best_cand_props(*t, data@, feature_i as int, label_i as int, 0);
    }
    while i < n - 1
        invariant
            t.wf(),
            sub_ok(*t, data@),
            feature_i < t.width(),
            label_i < t.width(),
            1 <= n == data@.len() <= MAX_SAMPLES,
            i <= n - 1,
            wp == wentropy(labels_of(*t, data@, label_i as int)),
            0 <= wp <= MAX_SAMPLES * (21 * ENT_SCALE),
            (best_g as int, best_p as int) == best_cand(
                *t,
                data@,
                feature_i as int,
                label_i as int,
                i as int,
            ),
            best_g >= 0,
        decreases n - 1 - i,
    {
        let ll = labels_range(t, data, 0, i + 1, label_i);
        let rl = labels_range(t, data, i + 1, n, label_i);
        proof {
            lemma_labels_of_index(*t, data@.subrange(0, i as int + 1), label_i as int);
            lemma_labels_of_index(
                *t,
                data@.subrange(i as int + 1, n as int),
                label_i as int,
            );
        }
        let wl = slice_went(&ll);
        let wr = slice_went(&rl);
        proof {
            assert(ll@.len() * (21 * ENT_SCALE) <= MAX_SAMPLES * (21 * ENT_SCALE)) by {
                lemma_mul_inequality(ll@.len() as int, MAX_SAMPLES as int, 21 * ENT_SCALE);
            }
            assert(rl@.len() * (21 * ENT_SCALE) <= MAX_SAMPLES * (21 * ENT_SCALE)) by {
                lemma_mul_inequality(rl@.len() as int, MAX_SAMPLES as int, 21 * ENT_SCALE);
            }
        }
        let g = wp - wl - wr;
        proof {
            assert(g as int == cand_gain(*t, data@, i as int, label_i as int));
        }
        if g > best_g {
            best_g = g;
            let a = t.value(data[i], feature_i);
            let b = t.value(data[i + 1], feature_i);
            best_p = a + b;
        }
        i = i + 1;
    }
    proof {
        assert(i == n - 1);
    }
    (best_g, best_p)
}

/// The samples of `s` whose value on feature `f` is strictly below the
/// threshold `p / 2`, in order.
pub open spec fn left_part(t: Table, s: Seq<usize>, f: int, p: int) -> Seq<usize>
    decreases s.len(),
{
    if s.len() == 0 {
        Seq::empty()
    } else {
        let rest = left_part(t, s.drop_last(), f, p);
        if 2 * t.val(s.last() as int, f) < p {
            rest.push(s.last())
        } else {
            rest
        }
    }
}

/// The samples of `s` whose value on feature `f` is at or above the
/// threshold `p / 2`, in order.
pub open spec fn right_part(t: Table, s: Seq<usize>, f: int, p: int) -> Seq<usize>
    decreases s.len(),
{
    if s.len() == 0 {
        Seq::empty()
    } else {
        let rest = right_part(t, s.drop_last(), f, p);
        if 2 * t.val(s.last() as int, f) >= p {
            rest.push(s.last())
        } else {
            rest
        }
    }
}

/// The two partitions split `s` exactly: below the threshold to the left,
/// at or above it to the right, both in bounds.
pub proof fn lemma_parts(t: Table, s: Seq<usize>, f: int, p: int)
    ensures
        left_part(t, s, f, p).len() + right_part(t, s, f, p).len() == s.len(),
        forall|k: int|
            0 <= k < left_part(t, s, f, p).len() ==> 2 * t.val(
                (#[trigger] left_part(t, s, f, p)[k]) as int,
                f,
            ) < p,
        forall|k: int|
            0 <= k < right_part(t, s, f, p).len() ==> 2 * t.val(
                (#[trigger] right_part(t, s, f, p)[k]) as int,
                f,
            ) >= p,
        forall|j: int|
            0 <= j < s.len() && 2 * t.val((#[trigger] s[j]) as int, f) < p ==> left_part(
                t,
                s,
                f,
                p,
            ).contains(s[j]),
        forall|j: int|
            0 <= j < s.len() && 2 * t.val((#[trigger] s[j]) as int, f) >= p ==> right_part(
                t,
                s,
                f,
                p,
            ).contains(s[j]),
        sub_ok(t, s) ==> sub_ok(t, left_part(t, s, f, p)) && sub_ok(t, right_part(t, s, f, p)),
    decreases s.len(),
{
    if s.len() > 0 {
        let sd = s.drop_last();
        lemma_parts(t, sd, f, p);
        assert(forall|i: int| 0 <= i < sd.len() ==> sd[i] == s[i]);
        if sub_ok(t, s) {
            assert(sub_ok(t, sd));
        }
        let l = left_part(t, s, f, p);
        let r = right_part(t, s, f, p);
        let ld = left_part(t, sd, f, p);
        let rd = right_part(t, sd, f, p);
        assert forall|j: int|
            0 <= j < s.len() && 2 * t.val((#[trigger] s[j]) as int, f) < p implies l.contains(
            s[j],
        ) by {
            if j < s.len() - 1 {
                assert(ld.contains(s[j]));
                let k = choose|k: int| 0 <= k < ld.len() && ld[k] == s[j];
                assert(l[k] == s[j]);
            } else {
                assert(l.last() == s[j]);
            }
        }
        assert forall|j: int|
            0 <= j < s.len() && 2 * t.val((#[trigger] s[j]) as int, f) >= p implies r.contains(
            s[j],
        ) by {
            if j < s.len() - 1 {
                assert(rd.contains(s[j]));
                let k = choose|k: int| 0 <= k < rd.len() && rd[k] == s[j];
                assert(r[k] == s[j]);
            } else {
                assert(r.last() == s[j]);
            }
        }
    }
}

/// Under a threshold that cuts the sorted order at position `m`, the left
/// and right partitions are exactly the prefix and the suffix there.
proof fn lemma_parts_of_sorted(t: Table, s: Seq<usize>, f: int, p: int, m: int)
    requires
        0 <= m <= s.len(),
        forall|k: int| 0 <= k < m ==> 2 * t.val((#[trigger] s[k]) as int, f) < p,
        forall|k: int| m <= k < s.len() ==> 2 * t.val((#[trigger] s[k]) as int, f) >= p,
    ensures
        left_part(t, s, f, p) == s.subrange(0, m),
        right_part(t, s, f, p) == s.subrange(m, s.len() as int),
    decreases s.len(),
{
    if s.len() == 0 {
        assert(left_part(t, s, f, p) =~= s.subrange(0, m));
        assert(right_part(t, s, f, p) =~= s.subrange(m, s.len() as int));
    } else {
        let sd = s.drop_last();
        assert(forall|i: int| 0 <= i < sd.len() ==> sd[i] == s[i]);
        if m == s.len() {
            lemma_parts_of_sorted(t, sd, f, p, m - 1);
            assert(left_part(t, s, f, p) == left_part(t, sd, f, p).push(s.last()));
            assert(sd.subrange(0, m - 1) =~= sd);
            assert(sd.push(s.last()) =~= s.subrange(0, m));
            assert(right_part(t, s, f, p) == right_part(t, sd, f, p));
            assert(sd.subrange(m - 1, sd.len() as int) =~= Seq::<usize>::empty());
            assert(s.subrange(m, s.len() as int) =~= Seq::<usize>::empty());
        } else {
            lemma_parts_of_sorted(t, sd, f, p, m);
            assert(left_part(t, s, f, p) == left_part(t, sd, f, p));
            assert(sd.subrange(0, m) =~= s.subrange(0, m));
            assert(right_part(t, s, f, p) == right_part(t, sd, f, p).push(s.last()));
            assert(sd.subrange(m, sd.len() as int).push(s.last()) =~= s.subrange(
                m,
                s.len() as int,
            ));
        }
    }
}

/// When the Split Evaluator reports a positive gain, its threshold is the
/// midpoint of some adjacent pair of the sorted subset with that gain, no
/// candidate does better, and the right partition is nonempty; when that
/// pair's two values differ, the partitions are exactly the sorted prefix
/// and suffix at the pair, both nonempty.
pub proof fn lemma_split_partition(t: Table, s: Seq<usize>, f: int, label_i: int, g: int, p: int)
    requires
        s.len() >= 1,
        sorted_by(t, s, f),
        (g, p) == best_cand(t, s, f, label_i, s.len() - 1),
        g > 0,
    ensures
        exists|i: int|
            0 <= i < s.len() - 1 && p == mid2(t, s, i, f) && g == #[trigger] cand_gain(
                t,
                s,
                i,
                label_i,
            ) && (t.val(s[i] as int, f) < t.val(s[i + 1] as int, f) ==> left_part(t, s, f, p)
                == s.subrange(0, i + 1) && right_part(t, s, f, p) == s.subrange(
                i + 1,
                s.len() as int,
            ) && left_part(t, s, f, p).len() >= 1),
        forall|j: int| 0 <= j < s.len() - 1 ==> #[trigger] cand_gain(t, s, j, label_i) <= g,
        right_part(t, s, f, p).len() >= 1,
        left_part(t, s, f, p).len() + right_part(t, s, f, p).len() == s.len(),
{
    lemma_best_cand_props(t, s, f, label_i, s.len() - 1);
    lemma_parts(t, s, f, p);
    let i = choose|i: int|
        0 <= i < s.len() - 1 && #[trigger] cand_gain(t, s, i, label_i) == g && mid2(t, s, i, f)
            == p;
    // the right partition holds the upper neighbour
    assert(2 * t.val(s[i + 1] as int, f) >= p);
    assert(right_part(t, s, f, p).contains(s[i + 1]));
    assert(right_part(t, s, f, p).len() >= 1);
    if t.val(s[i] as int, f) < t.val(s[i + 1] as int, f) {
        assert forall|k: int| 0 <= k < i + 1 implies 2 * t.val(
            (#[trigger] s[k]) as int,
            f,
        ) < p by {
            if k < i {
                assert(t.val(s[k] as int, f) <= t.val(s[i] as int, f));
            }
        }
        assert forall|k: int| i + 1 <= k < s.len() implies 2 * t.val(
            (#[trigger] s[k]) as int,
            f,
        ) >= p by {
            if k > i + 1 {
                assert(t.val(s[i + 1] as int, f) <= t.val(s[k] as int, f));
            }
        }
        lemma_parts_of_sorted(t, s, f, p, i + 1);
        assert(left_part(t, s, f, p).len() >= 1) by {
            assert(left_part(t, s, f, p) == s.subrange(0, i + 1));
        }
    }
}

/// A candidate split whose two sides carry identical label sequences yields
/// exactly zero information gain: a candidate's gain can be positive only
/// where the label data differs between its two sides.
pub proof fn lemma_identical_sides_no_gain(t: Table, s: Seq<usize>, i: int, label_i: int)
    requires
        0 <= i < s.len(),
        s.len() <= MAX_SAMPLES,
        labels_of(t, s.subrange(0, i + 1), label_i) == labels_of(
            t,
            s.subrange(i + 1, s.len() as int),
            label_i,
        ),
    ensures
        cand_gain(t, s, i, label_i) == 0,
{
    let a = s.subrange(0, i + 1);
    let b = s.subrange(i + 1, s.len() as int);
    let l = labels_of(t, a, label_i);
    assert(a + b =~= s);
    crate::table::lemma_labels_of_concat(t, a, b, label_i);
    assert(labels_of(t, s, label_i) == l + l);
    lemma_labels_of_index(t, a, label_i);
    crate::entropy::lemma_wentropy_double(l);
}

/// One step of the Split Selector: the running best after considering the
/// features below `w` in ascending order, skipping the label column,
/// re-sorting the subset at each feature. Returns
/// `(feature, point, gain, subset order)`.
pub open spec fn calc_rec(t: Table, s: Seq<usize>, label_i: int, w: int) -> (int, int, int, Seq<
    usize,
>)
    decreases w,
{
    if w <= 0 {
        (0, 0, 0, s)
    } else {
        let prev = calc_rec(t, s, label_i, w - 1);
        let f = w - 1;
        if f == label_i {
            prev
        } else {
            let bc = fs_spec(t, prev.3, f, label_i);
            let s2 = insort(t, prev.3, f);
            if bc.0 > prev.2 {
                (f, bc.1, bc.0, s2)
            } else {
                (prev.0, prev.1, prev.2, s2)
            }
        }
    }
}

/// What the Split Selector returns: the best split over every non-label
/// feature, ties kept by the earliest feature, together with the subset's
/// final order.
pub open spec fn calc_spec(t: Table, s: Seq<usize>, label_i: int) -> (int, int, int, Seq<usize>) {
    calc_rec(t, s, label_i, t.width())
}

/// The Selector's subset order is a permutation of the input, in bounds, and
/// its gain is nonnegative, zero exactly on the sentinel.
pub proof fn lemma_calc_rec_props(t: Table, s: Seq<usize>, label_i: int, w: int)
    requires
        sub_ok(t, s),
    ensures
        calc_rec(t, s, label_i, w).3.len() == s.len(),
        calc_rec(t, s, label_i, w).3.to_multiset() == s.to_multiset(),
        sub_ok(t, calc_rec(t, s, label_i, w).3),
        calc_rec(t, s, label_i, w).2 >= 0,
        calc_rec(t, s, label_i, w).2 == 0 ==> calc_rec(t, s, label_i, w) == (
            0int,
            0int,
            0int,
            calc_rec(t, s, label_i, w).3,
        ),
        0 <= calc_rec(t, s, label_i, w).0 <= if w <= 1 {
            0int
        } else {
            w - 1
        },
    decreases w,
{
    if w > 0 {
        lemma_calc_rec_props(t, s, label_i, w - 1);
        let prev = calc_rec(t, s, label_i, w - 1);
        let f = w - 1;
        if f != label_i {
            lemma_insort_props(t, prev.3, f);
            lemma_insort_sub_ok(t, prev.3, f);
            lemma_best_cand_props(t, insort(t, prev.3, f), f, label_i, prev.3.len() - 1);
        }
    }
}

/// The Split Selector: runs the Split Evaluator for every feature except the
/// label column and returns the `Split` with the strictly greatest
/// information gain seen, the sentinel when no feature improves.
pub fn calc_split(t: &Table, data: &mut Vec<usize>, label_i: usize) -> (s: Split)
    requires
        t.wf(),
        sub_ok(*t, old(data)@),
        1 <= old(data)@.len() <= MAX_SAMPLES,
        label_i < t.width(),
    ensures
        s.feature as int == calc_spec(*t, old(data)@, label_i as int).0,
        s.point as int == calc_spec(*t, old(data)@, label_i as int).1,
        s.gain as int == calc_spec(*t, old(data)@, label_i as int).2,
        final(data)@ == calc_spec(*t, old(data)@, label_i as int).3,
        final(data)@.len() == old(data)@.len(),
        final(data)@.to_multiset() == old(data)@.to_multiset(),
        sub_ok(*t, final(data)@),
        s.gain >= 0,
        s.gain == 0 ==> s.feature == 0 && s.point == 0,
{
    proof {
        assert(old(data)@[0] < t.rows@.len());
    }
    let width = t.num_columns();
    let mut split = Split::new();
    let mut f: usize = 0;
    while f < width
        invariant
            t.wf(),
            sub_ok(*t, old(data)@),
            1 <= old(data)@.len() <= MAX_SAMPLES,
            label_i < t.width(),
            f <= width == t.width(),
            split.feature as int == calc_rec(*t, old(data)@, label_i as int, f as int).0,
            split.point as int == calc_rec(*t, old(data)@, label_i as int, f as int).1,
            split.gain as int == calc_rec(*t, old(data)@, label_i as int, f as int).2,
            data@ == calc_rec(*t, old(data)@, label_i as int, f as int).3,
            split.gain >= 0,
            split.gain == 0 ==> split.feature == 0 && split.point == 0,
        decreases width - f,
    {
        proof {
            lemma_calc_rec_props(*t, old(data)@, label_i as int, f as int);
        }
        if f != label_i {
            let (g, p) = feature_split(t, data, f, label_i);
            if g > split.gain {
                split.feature = f;
                split.point = p;
                split.gain = g;
            }
        }
        f = f + 1;
    }
    proof {
        lemma_calc_rec_props(*t, old(data)@, label_i as int, width as int);
    }
    split
}

} // verus!
