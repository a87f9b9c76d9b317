use reducers::reducers_1d::{
    number_count_finite, number_lmedian_value_in_place, number_max_value,
    number_median_pair_in_place, number_min_value, number_minmax_value,
    number_rank_values_in_place, selection_rank_budget, weights_refused,
};
use reducers::ScanPolicy;

fn sorted<T: Ord + Copy>(v: &[T]) -> Vec<T> {
    let mut s = v.to_vec();
    s.sort();
    s
}

#[test]
fn min_max_of_every_length() {
    let base: [i64; 11] = [5, -3, 9, 0, 12, -7, 4, 4, 8, -1, 6];
    for len in 1..=base.len() {
        let v = &base[..len];
        assert_eq!(number_min_value(v), v.iter().copied().min(), "len {len}");
        assert_eq!(number_max_value(v), v.iter().copied().max(), "len {len}");
    }
    let empty: [u8; 0] = [];
    assert_eq!(number_min_value(&empty), None);
    assert_eq!(number_max_value(&empty), None);
}

#[test]
fn min_max_in_remainder_and_lanes() {
    assert_eq!(number_min_value(&[9u32, 9, 9, 9, 1]), Some(1));
    assert_eq!(number_max_value(&[1u16, 1, 1, 1, 1, 1, 1, 7]), Some(7));
    assert_eq!(number_min_value(&[4i8, 3, -128, 2]), Some(-128));
    assert_eq!(number_max_value(&[u64::MAX, 0]), Some(u64::MAX));
    assert_eq!(number_min_value(&[true, false, true]), Some(false));
    assert_eq!(number_max_value(&[false, false]), Some(false));
    assert_eq!(number_max_value(&[i16::MIN, -5, i16::MAX, 3, 2, 1]), Some(i16::MAX));
    assert_eq!(number_min_value(&[7i32]), Some(7));
}

#[test]
fn lower_median_selects_in_place() {
    let mut a = [3u8, 1, 2];
    assert_eq!(number_lmedian_value_in_place(&mut a), Some(2));
    assert_eq!(sorted(&a), vec![1, 2, 3]);
    let mut b = [4i32, 1, 3, 2];
    assert_eq!(number_lmedian_value_in_place(&mut b), Some(2));
    assert_eq!(sorted(&b), vec![1, 2, 3, 4]);
    let mut c: [i64; 0] = [];
    assert_eq!(number_lmedian_value_in_place(&mut c), None);
    let mut d = [true, false, true, true];
    assert_eq!(number_lmedian_value_in_place(&mut d), Some(true));
    let mut e = [10u64, 9, 8, 7, 6, 5, 4, 3, 2, 1];
    assert_eq!(number_lmedian_value_in_place(&mut e), Some(5));
}

#[test]
fn median_pair() {
    let mut a = [3i16, 1, 2];
    assert_eq!(number_median_pair_in_place(&mut a), Some((2, 2)));
    let mut b = [4u32, 1, 3, 2];
    assert_eq!(number_median_pair_in_place(&mut b), Some((2, 3)));
    assert_eq!(sorted(&b), vec![1, 2, 3, 4]);
    let mut c = [5u8, 5];
    assert_eq!(number_median_pair_in_place(&mut c), Some((5, 5)));
    let mut d: [u8; 0] = [];
    assert_eq!(number_median_pair_in_place(&mut d), None);
    let mut e = [9i64, -2, 7, 100, 3, -50];
    assert_eq!(number_median_pair_in_place(&mut e), Some((3, 7)));
}

#[test]
fn count_finite_counts_everything() {
    assert_eq!(number_count_finite(&[1u8, 2, 3]), 3);
    let empty: [i32; 0] = [];
    assert_eq!(number_count_finite(&empty), 0);
}

#[test]
fn minmax_in_one_pass() {
    let base: [i32; 11] = [5, -3, 9, 0, 12, -7, 4, 4, 8, -1, 6];
    for len in 1..=base.len() {
        let v = &base[..len];
        let lo = v.iter().copied().min().unwrap();
        let hi = v.iter().copied().max().unwrap();
        assert_eq!(number_minmax_value(v), Some((lo, hi)), "len {len}");
        // the fused scan gives what the two separate scans give
        let separate = number_min_value(v).zip(number_max_value(v));
        assert_eq!(number_minmax_value(v), separate, "len {len}");
    }
    let empty: [u64; 0] = [];
    assert_eq!(number_minmax_value(&empty), None);
    assert_eq!(number_minmax_value(&[true, false]), Some((false, true)));
    assert_eq!(number_minmax_value(&[7u8]), Some((7, 7)));
}

#[test]
fn rank_budget_is_floor_log2() {
    assert_eq!(selection_rank_budget(1), 0);
    assert_eq!(selection_rank_budget(2), 1);
    assert_eq!(selection_rank_budget(3), 1);
    assert_eq!(selection_rank_budget(10), 3);
    assert_eq!(selection_rank_budget(1023), 9);
    assert_eq!(selection_rank_budget(1024), 10);
    assert_eq!(selection_rank_budget(usize::MAX), usize::BITS as usize - 1);
}

#[test]
fn rank_values_by_selection() {
    // three distinct ranks of ten elements: within the budget of 3
    let data = [10i64, -4, 7, 7, 0, 22, 3, -9, 15, 1];
    let expect = sorted(&data);
    let mut buf = data;
    let ranks = [0usize, 9, 4, 4];
    let out = number_rank_values_in_place(&mut buf, &ranks);
    assert_eq!(out, vec![expect[0], expect[9], expect[4], expect[4]]);
    assert_eq!(out, vec![-9, 22, 3, 3]);
    assert_eq!(sorted(&buf), expect);
}

#[test]
fn rank_values_by_sorting() {
    // four distinct ranks of ten elements: over the budget, so the buffer is sorted
    let data = [10u16, 4, 7, 7, 0, 22, 3, 9, 15, 1];
    let mut buf = data;
    let out = number_rank_values_in_place(&mut buf, &[3, 2, 1, 0, 3]);
    assert_eq!(out, vec![4, 3, 1, 0, 4]);
    assert_eq!(buf.to_vec(), sorted(&data));
}

#[test]
fn rank_values_of_nothing() {
    let mut empty: [u8; 0] = [];
    assert_eq!(number_rank_values_in_place(&mut empty, &[]), Vec::<u8>::new());
    let mut one = [5i8];
    assert_eq!(number_rank_values_in_place(&mut one, &[0, 0]), vec![5, 5]);
}

#[test]
fn weights_refusals() {
    assert!(weights_refused(3, true, ScanPolicy::SkipNan));
    assert!(!weights_refused(3, false, ScanPolicy::AllValues));
    assert!(weights_refused(0, false, ScanPolicy::AllValues));
    assert!(weights_refused(0, true, ScanPolicy::AllFinite));
    assert!(!weights_refused(0, false, ScanPolicy::SkipNan));
    assert!(!weights_refused(0, true, ScanPolicy::SkipNonFinite));
}

#[test]
fn extreme_ranks_are_min_and_max() {
    let data = [12u32, 5, 99, 5, 0, 41, 7];
    let mut buf = data;
    let out = number_rank_values_in_place(&mut buf, &[0, data.len() - 1]);
    assert_eq!(Some(out[0]), number_min_value(&data));
    assert_eq!(Some(out[1]), number_max_value(&data));
}
