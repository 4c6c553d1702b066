//! The Tree Builder and the Tree Node.
//!
//! The builder recursively partitions a subset into a binary tree: it stops
//! with no node when the subset holds at most [`MIN_SPLIT_SIZE`] samples or
//! when no feature improves impurity; otherwise it takes the Split
//! Selector's best split, sends every sample strictly below the threshold
//! left and the rest right, and recurses on both sides. A degenerate winning
//! threshold that sends every sample to one side (possible only when the
//! winning adjacent pair carries equal feature values) also stops the
//! branch: recursing on an unchanged subset could never terminate.
//!
//! [`fits`] is the builder's whole behaviour as one deterministic predicate;
//! `fit_tree` is proved to satisfy it, and the predicate pins the result
//! down to one tree (see [`lemma_builder_deterministic`]).

use vstd::prelude::*;

verus! {

use crate::table::{Table, sub_ok, MAX_SAMPLES};
use crate::split::{
    Split,
    calc_split,
    calc_spec,
    left_part,
    right_part,
    lemma_parts,
    lemma_calc_rec_props,
};

/// A subset at or below this size is never split further.
pub const MIN_SPLIT_SIZE: usize = 6;

/// A node of the induced binary tree: its split rule and its two optional
/// children, each exclusively owned. Absence of a child marks where
/// splitting stopped.
#[derive(Debug)]
pub struct TreeNode {
    pub split: Split,
    pub left_child: Option<Box<TreeNode>>,
    pub right_child: Option<Box<TreeNode>>,
}

impl TreeNode {
    /// A leaf node carrying `split`, with no children yet.
    pub fn new(split: Split) -> (n: TreeNode)
        ensures
            n.split == split,
            n.left_child is None,
            n.right_child is None,
    {
        TreeNode { split, left_child: None, right_child: None }
    }
}

/// The Tree Builder's behaviour, as a predicate over the subset it was given
/// and the optional node it returned: no node for a small subset or a
/// sentinel split or a one-sided partition; otherwise a node carrying the
/// Selector's split whose children fit the two partitions.
pub open spec fn fits(t: Table, s: Seq<usize>, label_i: int, r: Option<Box<TreeNode>>) -> bool
    decreases s.len(),
{
    if s.len() <= MIN_SPLIT_SIZE {
        r is None
    } else {
        let c = calc_spec(t, s, label_i);
        if c.2 > 0 {
            let l = left_part(t, c.3, c.0, c.1);
            let rt = right_part(t, c.3, c.0, c.1);
            if l.len() < s.len() && rt.len() < s.len() {
                match r {
                    Some(node) => {
                        &&& node.split.feature as int == c.0
                        &&& node.split.point as int == c.1
                        &&& node.split.gain as int == c.2
                        &&& fits(t, l, label_i, node.left_child)
                        &&& fits(t, rt, label_i, node.right_child)
                    },
                    None => false,
                }
            } else {
                r is None
            }
        } else {
            r is None
        }
    }
}

/// The Tree Builder: recursively partitions the subset `data` of `t` into a
/// binary tree by the best splits the Split Selector finds, stopping where
/// the subset is too small or no split improves impurity. The subset is
/// reordered in place; the samples themselves are never changed.
pub fn fit_tree(t: &Table, data: &mut Vec<usize>, label_i: usize) -> (r: Option<Box<TreeNode>>)
    requires
        t.wf(),
        sub_ok(*t, old(data)@),
        old(data)@.len() <= MAX_SAMPLES,
        label_i < t.width(),
    ensures
        fits(*t, old(data)@, label_i as int, r),
        sub_ok(*t, final(data)@),
        final(data)@.len() == old(data)@.len(),
    decreases old(data)@.len(),
{
    let n = data.len();
    if n <= MIN_SPLIT_SIZE {
        return None;
    }
    let split = calc_split(t, data, label_i);
    proof {
        lemma_calc_rec_props(*t, old(data)@, label_i as int, t.width());
    }
    if split.gain > 0 {
        let ghost c = calc_spec(*t, old(data)@, label_i as int);
        proof {
            assert(split.feature < t.width());
        }
        let mut left: Vec<usize> = Vec::new();
        let mut right: Vec<usize> = Vec::new();
        let mut i: usize = 0;
        proof {
            assert(data@.subrange(0, 0) =~= Seq::<usize>::empty());
        }
        while i < n
            invariant
                t.wf(),
                sub_ok(*t, data@),
                n == data@.len(),
                i <= n,
                split.feature < t.width(),
                left@ == left_part(
                    *t,
                    data@.subrange(0, i as int),
                    split.feature as int,
                    split.point as int,
                ),
                right@ == right_part(
                    *t,
                    data@.subrange(0, i as int),
                    split.feature as int,
                    split.point as int,
                ),
            decreases n - i,
        {
            proof {
                let pre = data@.subrange(0, i as int);
                let post = data@.subrange(0, i as int + 1);
                assert(post.drop_last() =~= pre);
                assert(post.last() == data@[i as int]);
            }
            let rix = data[i];
            let v = t.value(rix, split.feature);
            if 2 * v < split.point {
                left.push(rix);
            } else {
                right.push(rix);
            }
            i = i + 1;
        }
        proof {
            assert(data@.subrange(0, n as int) =~= data@);
            lemma_parts(*t, data@, split.feature as int, split.point as int);
            assert(data@ == c.3);
            assert(split.feature as int == c.0 && split.point as int == c.1 && split.gain as int
                == c.2);
        }
        if left.len() < n && right.len() < n {
            let mut node = TreeNode::new(split);
            node.left_child = fit_tree(t, &mut left, label_i);
            node.right_child = fit_tree(t, &mut right, label_i);
            proof {
                assert(fits(*t, old(data)@, label_i as int, Some(Box::new(node)))) by {
                    assert(left_part(*t, c.3, c.0, c.1).len() < old(data)@.len());
                    assert(right_part(*t, c.3, c.0, c.1).len() < old(data)@.len());
                }
            }
            Some(Box::new(node))
        } else {
            None
        }
    } else {
        None
    }
}

/// The Tree Builder never produces a node for a subset of at most
/// `MIN_SPLIT_SIZE` samples, whatever the labels.
pub proof fn lemma_no_node_for_small_subset(
    t: Table,
    s: Seq<usize>,
    label_i: int,
    r: Option<Box<TreeNode>>,
)
    requires
        fits(t, s, label_i, r),
        s.len() <= MIN_SPLIT_SIZE,
    ensures
        r is None,
{
}

/// The Tree Builder is deterministic: any two results for the same table,
/// subset and label index are structurally identical, node for node.
pub proof fn lemma_builder_deterministic(
    t: Table,
    s: Seq<usize>,
    label_i: int,
    r1: Option<Box<TreeNode>>,
    r2: Option<Box<TreeNode>>,
)
    requires
        fits(t, s, label_i, r1),
        fits(t, s, label_i, r2),
    ensures
        r1 == r2,
    decreases s.len(),
{
    if s.len() <= MIN_SPLIT_SIZE {
    } else {
        let c = calc_spec(t, s, label_i);
        if c.2 > 0 {
            let l = left_part(t, c.3, c.0, c.1);
            let rt = right_part(t, c.3, c.0, c.1);
            if l.len() < s.len() && rt.len() < s.len() {
                let n1 = r1->Some_0;
                let n2 = r2->Some_0;
                lemma_builder_deterministic(t, l, label_i, n1.left_child, n2.left_child);
                lemma_builder_deterministic(t, rt, label_i, n1.right_child, n2.right_child);
                assert(n1.split == n2.split);
                assert(*n1 == *n2);
            }
        }
    }
}

} // verus!
