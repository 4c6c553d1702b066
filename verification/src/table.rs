//! The table of samples: an ordered collection of equal-length rows of
//! fixed-point numeric values, and the index lists ("subsets") that the
//! builder partitions during recursion.

use vstd::prelude::*;

verus! {

/// How many fixed-point units make one whole unit of a feature value: an
/// `i64` value `v` in a table stands for the real number `v / FEATURE_SCALE`.
pub const FEATURE_SCALE: i64 = 1_000_000;

/// Largest number of samples a subset may hold; keeps every entropy and gain
/// computation inside `i64`.
pub const MAX_SAMPLES: usize = 1_048_576;

/// Largest magnitude of a feature value; keeps threshold midpoint sums inside
/// `i64`.
pub const MAX_ABS_VALUE: i64 = 0x100_0000_0000_0000;

/// An ordered collection of samples, all of identical length. Row values are
/// read-only after construction; the builder only reorders and subsets index
/// lists that point into it.
pub struct Table {
    pub rows: Vec<Vec<i64>>,
}

impl Table {
    /// The common length of every row.
    pub open spec fn width(self) -> int {
        if self.rows@.len() == 0 {
            0
        } else {
            self.rows@[0]@.len() as int
        }
    }

    /// Every row has the same length and every value is bounded.
    pub open spec fn wf(self) -> bool {
        &&& forall|r: int|
            0 <= r < self.rows@.len() ==> (#[trigger] self.rows@[r])@.len() == self.width()
        &&& forall|r: int, c: int|
            0 <= r < self.rows@.len() && 0 <= c < self.width() ==> -MAX_ABS_VALUE
                <= (#[trigger] self.rows@[r]@[c]) <= MAX_ABS_VALUE
    }

    /// The value of sample `r` at feature `c`.
    pub open spec fn val(self, r: int, c: int) -> int {
        self.rows@[r]@[c] as int
    }

    /// Number of samples in the table.
    pub open spec fn spec_len(self) -> int {
        self.rows@.len() as int
    }

    /// Number of samples in the table.
    pub fn len(&self) -> (n: usize)
        ensures
            n == self.spec_len(),
    {
        self.rows.len()
    }

    /// Number of columns (features plus the label column).
    pub fn num_columns(&self) -> (w: usize)
        requires
            self.rows@.len() > 0,
    ensures
            w == self.width(),
    {
        self.rows[0].len()
    }

    /// Reads one value.
    pub fn value(&self, r: usize, c: usize) -> (v: i64)
        requires
            self.wf(),
            r < self.rows@.len(),
            c < self.width(),
        ensures
            v == self.val(r as int, c as int),
            -MAX_ABS_VALUE <= v <= MAX_ABS_VALUE,
    {
        self.rows[r][c]
    }
}

/// A subset of the table: a list of row indices, all in bounds.
pub open spec fn sub_ok(t: Table, s: Seq<usize>) -> bool {
    forall|i: int| 0 <= i < s.len() ==> (#[trigger] s[i]) < t.rows@.len()
}

/// Truncation of a fixed-point value toward zero to a whole label: the
/// grouping key the Distribution Estimator uses for a label column.
pub open spec fn trunc_label(v: int) -> int {
    if v >= 0 {
        v / (FEATURE_SCALE as int)
    } else {
        -((-v) / (FEATURE_SCALE as int))
    }
}

/// The label of sample `r`: its value in the label column, truncated toward
/// zero to a whole number.
pub open spec fn label_at(t: Table, r: int, label_i: int) -> int {
    trunc_label(t.val(r, label_i))
}

/// The sequence of labels of a subset.
pub open spec fn labels_of(t: Table, s: Seq<usize>, label_i: int) -> Seq<i64>
    decreases s.len(),
{
    if s.len() == 0 {
        Seq::empty()
    } else {
        labels_of(t, s.drop_last(), label_i).push(label_at(t, s.last() as int, label_i) as i64)
    }
}

/// `labels_of` maps each row index to its label, position by position.
pub proof fn lemma_labels_of_index(t: Table, s: Seq<usize>, label_i: int)
    ensures
        labels_of(t, s, label_i).len() == s.len(),
        forall|k: int|
            0 <= k < s.len() ==> labels_of(t, s, label_i)[k] == label_at(
                t,
                s[k] as int,
                label_i,
            ) as i64,
    decreases s.len(),
{
    if s.len() > 0 {
        lemma_labels_of_index(t, s.drop_last(), label_i);
    }
}

/// Labels map over concatenation.
pub proof fn lemma_labels_of_concat(t: Table, a: Seq<usize>, b: Seq<usize>, label_i: int)
    ensures
        labels_of(t, a + b, label_i) == labels_of(t, a, label_i) + labels_of(t, b, label_i),
    decreases b.len(),
{
    if b.len() == 0 {
        assert(a + b =~= a);
        assert(labels_of(t, b, label_i) =~= Seq::<i64>::empty());
        assert(labels_of(t, a, label_i) + labels_of(t, b, label_i) =~= labels_of(t, a, label_i));
    } else {
        lemma_labels_of_concat(t, a, b.drop_last(), label_i);
        assert((a + b).drop_last() =~= a + b.drop_last());
        assert((a + b).last() == b.last());
        assert(labels_of(t, a, label_i) + labels_of(t, b.drop_last(), label_i).push(
            label_at(t, b.last() as int, label_i) as i64,
        ) =~= (labels_of(t, a, label_i) + labels_of(t, b.drop_last(), label_i)).push(
            label_at(t, b.last() as int, label_i) as i64,
        ));
    }
}

/// Truncates a fixed-point value toward zero to its whole label.
pub fn label_value(t: &Table, r: usize, label_i: usize) -> (l: i64)
    requires
        t.wf(),
        r < t.rows@.len(),
        label_i < t.width(),
    ensures
        l == label_at(*t, r as int, label_i as int),
        -MAX_ABS_VALUE <= l <= MAX_ABS_VALUE,
{
    let v = t.value(r, label_i);
    if v >= 0 {
        ((v as u64) / (FEATURE_SCALE as u64)) as i64
    } else {
        assert((((-v) as u64) / (FEATURE_SCALE as u64)) <= (-v) as u64) by {
            vstd::arithmetic::div_mod::lemma_div_is_ordered_by_denominator(
                (-v) as int,
                1,
                FEATURE_SCALE as int,
            );
        }
        -((((-v) as u64) / (FEATURE_SCALE as u64)) as i64)
    }
}

/// The labels of the rows `idx[lo..hi]`, truncated toward zero.
pub fn labels_range(t: &Table, idx: &Vec<usize>, lo: usize, hi: usize, label_i: usize) -> (l: Vec<
    i64,
>)
    requires
        t.wf(),
        sub_ok(*t, idx@),
        lo <= hi <= idx@.len(),
        label_i < t.width(),
    ensures
        l@ == labels_of(*t, idx@.subrange(lo as int, hi as int), label_i as int),
{
    let mut l: Vec<i64> = Vec::new();
    let mut j: usize = lo;
    proof {
        assert(idx@.subrange(lo as int, lo as int) =~= Seq::<usize>::empty());
    }
    while j < hi
        invariant
            t.wf(),
            sub_ok(*t, idx@),
            lo <= j <= hi <= idx@.len(),
            label_i < t.width(),
            l@ == labels_of(*t, idx@.subrange(lo as int, j as int), label_i as int),
        decreases hi - j,
    {
        proof {
            let pre = idx@.subrange(lo as int, j as int);
            let post = idx@.subrange(lo as int, j as int + 1);
            assert(post.drop_last() =~= pre);
            assert(post.last() == idx@[j as int]);
        }
        let v = label_value(t, idx[j], label_i);
        l.push(v);
        j = j + 1;
    }
    l
}

} // verus!
