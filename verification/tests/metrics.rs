use dtree::dist::count_dist;
use dtree::entropy::{entropy, gini};
use dtree::logfp::{log2_fixed, ENT_SCALE};
use dtree::table::{label_value, Table};

fn fx(x: f64) -> i64 {
    (x * 1_000_000.0).round() as i64
}

fn table(rows: &[&[f64]]) -> Table {
    Table {
        rows: rows
            .iter()
            .map(|r| r.iter().map(|&x| fx(x)).collect())
            .collect(),
    }
}

#[test]
fn log2_fixed_is_exact_on_powers_of_two() {
    assert_eq!(log2_fixed(1), 0);
    assert_eq!(log2_fixed(2), ENT_SCALE);
    assert_eq!(log2_fixed(4), 2 * ENT_SCALE);
    assert_eq!(log2_fixed(1024), 10 * ENT_SCALE);
    assert_eq!(log2_fixed(1 << 20), 20 * ENT_SCALE);
}

#[test]
fn log2_fixed_tracks_the_real_logarithm() {
    for x in [3u64, 5, 6, 7, 10, 100, 150, 1000, 999_983] {
        let want: i64 = ((x as f64).log2() * ENT_SCALE as f64) as i64;
        let got: i64 = log2_fixed(x);
        assert!(
            (got - want).abs() <= 100,
            "log2_fixed({}) == {}, expected about {}",
            x,
            got,
            want
        );
    }
}

#[test]
fn count_dist_counts_each_distinct_value() {
    let data: Vec<i64> = vec![5, 5, 7];
    let d = count_dist(&data);
    assert_eq!(d.values, vec![5, 7]);
    assert_eq!(d.counts, vec![2, 1]);
    assert_eq!(d.total, 3);
}

#[test]
fn count_dist_probabilities_sum_to_one() {
    // the counts over distinct values sum to the length, each in [1, len]
    let data: Vec<i64> = vec![1, 2, 2, 3, 3, 3, 1, 2];
    let d = count_dist(&data);
    let sum: u64 = d.counts.iter().sum();
    assert_eq!(sum, d.total);
    assert_eq!(d.total as usize, data.len());
    for &c in &d.counts {
        assert!(1 <= c && c <= d.total);
    }
    let p: f64 = d.counts.iter().map(|&c| c as f64 / d.total as f64).sum();
    assert!((p - 1.0).abs() < 1e-12);
}

#[test]
fn entropy_of_point_mass_is_zero() {
    let data: Vec<i64> = vec![4, 4, 4, 4, 4];
    let d = count_dist(&data);
    assert_eq!(entropy(&d), 0);
}

#[test]
fn entropy_of_uniform_over_four_values_is_two_bits() {
    let data: Vec<i64> = vec![1, 2, 3, 4];
    let d = count_dist(&data);
    assert_eq!(entropy(&d), 2 * ENT_SCALE);
}

#[test]
fn entropy_of_uniform_over_three_values_is_log2_of_three() {
    let data: Vec<i64> = vec![10, 20, 30];
    let d = count_dist(&data);
    let want: i64 = (3f64.log2() * ENT_SCALE as f64) as i64;
    assert!((entropy(&d) - want).abs() <= 100);
}

#[test]
fn entropy_of_mixed_distribution_is_positive() {
    let data: Vec<i64> = vec![0, 0, 0, 1];
    let d = count_dist(&data);
    let got: i64 = entropy(&d);
    // H(1/4, 3/4) = 2 - (3/4) log2(3) ~ 0.811278
    let want: i64 = (0.8112781244591328 * ENT_SCALE as f64) as i64;
    assert!(got > 0);
    assert!((got - want).abs() <= 100);
}

#[test]
fn gini_of_point_mass_is_zero_and_of_a_fifty_fifty_split_a_half() {
    let pure: Vec<i64> = vec![9, 9, 9];
    assert_eq!(gini(&count_dist(&pure)), 0);
    let even: Vec<i64> = vec![0, 1];
    assert_eq!(gini(&count_dist(&even)), ENT_SCALE / 2);
}

#[test]
fn labels_truncate_toward_zero() {
    let t = table(&[&[1.5, 0.0], &[-1.5, 0.0], &[2.0, 0.0]]);
    assert_eq!(label_value(&t, 0, 0), 1);
    assert_eq!(label_value(&t, 1, 0), -1);
    assert_eq!(label_value(&t, 2, 0), 2);
}
