use dtree::table::Table;
use dtree::tree::{fit_tree, TreeNode};

fn fx(x: f64) -> i64 {
    (x * 1_000_000.0).round() as i64
}

fn table(rows: &[&[f64]]) -> Table {
    Table {
        rows: rows
            .iter()
            .map(|r| r.iter().map(|&x| fx(x)).collect())
            .collect(),
    }
}

fn all_rows(t: &Table) -> Vec<usize> {
    (0..t.rows.len()).collect()
}

fn blob_table() -> Table {
    table(&[
        &[2.77, 1.78, 0.0],
        &[1.73, 1.17, 0.0],
        &[3.68, 2.81, 0.0],
        &[3.96, 2.62, 0.0],
        &[3.00, 2.21, 0.0],
        &[7.50, 3.16, 1.0],
        &[9.00, 3.34, 1.0],
        &[7.44, 0.48, 1.0],
        &[10.12, 3.23, 1.0],
        &[6.64, 3.32, 1.0],
    ])
}

/// A 150-row, three-class, four-feature table in the shape of the iris data:
/// the first two features overlap heavily across classes, the last two
/// separate the first class cleanly and the other two nearly so.
fn iris_style_table() -> Table {
    let mut rows: Vec<Vec<i64>> = Vec::new();
    for class in 0..3usize {
        for i in 0..50usize {
            let jitter = |m: usize| ((i * m + class * 7) % 20) as f64 / 20.0;
            let f0 = 4.5 + 2.5 * jitter(13);
            let f1 = 2.5 + 1.5 * jitter(11);
            let (f2, f3) = match class {
                0 => (1.0 + 0.8 * jitter(3), 0.1 + 0.4 * jitter(5)),
                1 => (3.5 + 1.4 * jitter(3), 1.0 + 0.7 * jitter(5)),
                _ => (4.7 + 1.8 * jitter(3), 1.6 + 0.8 * jitter(5)),
            };
            let row = vec![fx(f0), fx(f1), fx(f2), fx(f3), fx(class as f64)];
            rows.push(row);
        }
    }
    Table { rows }
}

fn tree_depth(node: &Option<Box<TreeNode>>) -> usize {
    match node {
        None => 0,
        Some(n) => 1 + tree_depth(&n.left_child).max(tree_depth(&n.right_child)),
    }
}

#[test]
fn no_node_for_a_subset_of_six_even_when_separable() {
    let t = table(&[
        &[1.0, 0.0],
        &[2.0, 0.0],
        &[3.0, 0.0],
        &[4.0, 1.0],
        &[5.0, 1.0],
        &[6.0, 1.0],
    ]);
    let mut idx = all_rows(&t);
    assert!(fit_tree(&t, &mut idx, 1).is_none());
}

#[test]
fn no_node_for_an_empty_subset() {
    let t = blob_table();
    let mut idx: Vec<usize> = Vec::new();
    assert!(fit_tree(&t, &mut idx, 2).is_none());
}

#[test]
fn no_node_when_labels_are_already_pure() {
    let t = table(&[
        &[1.0, 3.0],
        &[2.0, 3.0],
        &[3.0, 3.0],
        &[4.0, 3.0],
        &[5.0, 3.0],
        &[6.0, 3.0],
        &[7.0, 3.0],
        &[8.0, 3.0],
    ]);
    let mut idx = all_rows(&t);
    assert!(fit_tree(&t, &mut idx, 1).is_none());
}

#[test]
fn degenerate_constant_feature_produces_no_node() {
    // the only feature is constant, so every candidate threshold equals the
    // value itself and the whole subset falls at or above it; a node here
    // would re-split the same subset forever, so the builder stops
    let t = table(&[
        &[5.0, 0.0],
        &[5.0, 0.0],
        &[5.0, 0.0],
        &[5.0, 0.0],
        &[5.0, 1.0],
        &[5.0, 1.0],
        &[5.0, 1.0],
        &[5.0, 1.0],
    ]);
    let mut idx = all_rows(&t);
    assert!(fit_tree(&t, &mut idx, 1).is_none());
}

#[test]
fn two_blob_tree_has_the_separating_root_and_no_children() {
    let t = blob_table();
    let mut idx = all_rows(&t);
    let tree = fit_tree(&t, &mut idx, 2);
    let root = tree.expect("the blobs are separable, a root split must exist");
    assert_eq!(root.split.feature, 0);
    assert!(root.split.gain > 0);
    assert!(fx(4.96) * 2 < root.split.point && root.split.point < fx(6.64) * 2);
    // both sides are pure blobs of five samples: too small to split again
    assert!(root.left_child.is_none());
    assert!(root.right_child.is_none());
}

#[test]
fn rebuilding_gives_a_structurally_identical_tree() {
    let t = iris_style_table();
    let mut idx1 = all_rows(&t);
    let mut idx2 = all_rows(&t);
    let tree1 = fit_tree(&t, &mut idx1, 4);
    let tree2 = fit_tree(&t, &mut idx2, 4);
    assert_eq!(format!("{:?}", tree1), format!("{:?}", tree2));
}

#[test]
fn iris_style_root_splits_on_a_petal_feature_with_positive_gain() {
    let t = iris_style_table();
    let mut idx = all_rows(&t);
    let tree = fit_tree(&t, &mut idx, 4);
    let root = tree.expect("three separable classes must produce a root split");
    assert!(root.split.feature == 2 || root.split.feature == 3);
    assert!(root.split.gain > 0);
    assert!(tree_depth(&root.left_child).max(tree_depth(&root.right_child)) >= 1);
}
