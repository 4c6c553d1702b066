use dtree::entropy::get_slice_entropy;
use dtree::logfp::ENT_SCALE;
use dtree::split::{calc_split, feature_split, Split};
use dtree::table::Table;

fn fx(x: f64) -> i64 {
    (x * 1_000_000.0).round() as i64
}

fn table(rows: &[&[f64]]) -> Table {
    Table {
        rows: rows
            .iter()
            .map(|r| r.iter().map(|&x| fx(x)).collect())
            .collect(),
    }
}

fn blob_table() -> Table {
    table(&[
        &[2.77, 1.78, 0.0],
        &[1.73, 1.17, 0.0],
        &[3.68, 2.81, 0.0],
        &[3.96, 2.62, 0.0],
        &[3.00, 2.21, 0.0],
        &[7.50, 3.16, 1.0],
        &[9.00, 3.34, 1.0],
        &[7.44, 0.48, 1.0],
        &[10.12, 3.23, 1.0],
        &[6.64, 3.32, 1.0],
    ])
}

fn all_rows(t: &Table) -> Vec<usize> {
    (0..t.rows.len()).collect()
}

#[test]
fn sentinel_new_split_is_all_zero() {
    let s = Split::new();
    assert_eq!(s, Split { feature: 0, point: 0, gain: 0 });
}

#[test]
fn single_sample_subset_reports_the_sentinel() {
    let t = table(&[&[1.0, 0.0]]);
    let mut idx: Vec<usize> = vec![0];
    let (gain, point) = feature_split(&t, &mut idx, 0, 1);
    assert_eq!((gain, point), (0, 0));
}

#[test]
fn pure_labels_report_the_sentinel() {
    let t = table(&[&[1.0, 7.0], &[2.0, 7.0], &[3.0, 7.0]]);
    let mut idx = all_rows(&t);
    let (gain, point) = feature_split(&t, &mut idx, 0, 1);
    assert_eq!((gain, point), (0, 0));
}

#[test]
fn feature_split_sorts_the_subset_in_place() {
    let t = table(&[&[3.0, 0.0], &[1.0, 0.0], &[2.0, 1.0]]);
    let mut idx = all_rows(&t);
    feature_split(&t, &mut idx, 0, 1);
    assert_eq!(idx, vec![1, 2, 0]);
}

#[test]
fn feature_split_finds_a_clean_cut() {
    // labels 0 below 3.5, labels 1 above: threshold midpoint of 3 and 4
    let t = table(&[
        &[1.0, 0.0],
        &[2.0, 0.0],
        &[3.0, 0.0],
        &[4.0, 1.0],
        &[5.0, 1.0],
        &[6.0, 1.0],
    ]);
    let mut idx = all_rows(&t);
    let (gain, point) = feature_split(&t, &mut idx, 0, 1);
    assert!(gain > 0);
    // `point` is twice the threshold: (3.0 + 4.0) in fixed point
    assert_eq!(point, fx(3.0) + fx(4.0));
    // a clean cut of 3+3 removes all impurity: gain is n * H(1/2, 1/2),
    // one bit per sample
    assert_eq!(gain, 6 * ENT_SCALE);
}

#[test]
fn alternating_labels_keep_the_earliest_best_candidate() {
    // gains are symmetric around the middle; the strict comparison keeps the
    // first candidate, between 1.0 and 2.0
    let t = table(&[&[1.0, 0.0], &[2.0, 1.0], &[3.0, 0.0], &[4.0, 1.0]]);
    let mut idx = all_rows(&t);
    let (gain, point) = feature_split(&t, &mut idx, 0, 1);
    assert!(gain > 0);
    assert_eq!(point, fx(1.0) + fx(2.0));
}

#[test]
fn gain_never_exceeds_the_parent_entropy_weight() {
    let t = blob_table();
    let mut idx = all_rows(&t);
    let parent: i64 = get_slice_entropy(&t, &idx, 2);
    let n: i64 = idx.len() as i64;
    for f in 0..2 {
        let (gain, _) = feature_split(&t, &mut idx, f, 2);
        assert!(gain >= 0);
        // parent entropy is floored per sample, so allow one unit per sample
        assert!(gain <= n * parent + n);
    }
}

#[test]
fn two_blob_selector_chooses_feature_zero_with_a_separating_threshold() {
    let t = blob_table();
    let mut idx = all_rows(&t);
    let split = calc_split(&t, &mut idx, 2);
    assert_eq!(split.feature, 0);
    assert!(split.gain > 0);
    // threshold strictly between 4.96 and 6.64; `point` is twice the threshold
    assert!(fx(4.96) * 2 < split.point && split.point < fx(6.64) * 2);
    // the two blobs separate exactly between 3.96 and 6.64
    assert_eq!(split.point, fx(3.96) + fx(6.64));
}

#[test]
fn selector_reports_the_sentinel_when_no_feature_helps() {
    let t = table(&[&[1.0, 5.0], &[2.0, 5.0], &[3.0, 5.0], &[4.0, 5.0]]);
    let mut idx = all_rows(&t);
    let split = calc_split(&t, &mut idx, 1);
    assert_eq!(split, Split { feature: 0, point: 0, gain: 0 });
}

#[test]
fn a_winning_threshold_partitions_the_subset_into_two_nonempty_sides() {
    let t = blob_table();
    let mut idx = all_rows(&t);
    let (gain, point) = feature_split(&t, &mut idx, 0, 2);
    assert!(gain > 0);
    let below: Vec<usize> = idx
        .iter()
        .copied()
        .filter(|&r| 2 * t.rows[r][0] < point)
        .collect();
    let at_or_above: Vec<usize> = idx
        .iter()
        .copied()
        .filter(|&r| 2 * t.rows[r][0] >= point)
        .collect();
    assert_eq!(below.len(), 5);
    assert_eq!(at_or_above.len(), 5);
    // the subset is sorted, so the partitions are its prefix and suffix
    assert_eq!(below, idx[..5].to_vec());
    assert_eq!(at_or_above, idx[5..].to_vec());
}

#[test]
fn slice_entropy_of_two_even_classes_is_one_bit() {
    let t = blob_table();
    let idx = all_rows(&t);
    assert_eq!(get_slice_entropy(&t, &idx, 2), ENT_SCALE);
}
