use reducers::axis::{
    quantile_major, reduce_axis0_number_exact, reduce_axis0_number_exact_columns,
    reduce_axis_last_number_exact, reduce_axis_number_exact,
};
use reducers::reducers_1d::Kind;

// 3 rows of 4
const DATA: [i32; 12] = [5, 1, 9, 3, 2, 8, 6, 4, 7, 0, -1, 10];

fn transpose(data: &[i32], rows: usize, cols: usize) -> Vec<i32> {
    let mut t = vec![0; data.len()];
    for k in 0..rows {
        for j in 0..cols {
            t[j * rows + k] = data[k * cols + j];
        }
    }
    t
}

#[test]
fn last_axis_rows() {
    assert_eq!(reduce_axis_last_number_exact(&DATA, 3, 4, Kind::Min), vec![1, 2, -1]);
    assert_eq!(reduce_axis_last_number_exact(&DATA, 3, 4, Kind::Max), vec![9, 8, 10]);
    assert_eq!(reduce_axis_last_number_exact(&DATA, 3, 4, Kind::LMedian), vec![3, 4, 0]);
    assert_eq!(reduce_axis_last_number_exact(&DATA, 4, 3, Kind::LMedian), vec![5, 3, 6, 0]);
    let empty: [u8; 0] = [];
    assert_eq!(reduce_axis_last_number_exact(&empty, 0, 0, Kind::Min), Vec::<u8>::new());
}

#[test]
fn axis0_columns() {
    assert_eq!(reduce_axis0_number_exact(&DATA, 3, 4, Kind::Min), vec![2, 0, -1, 3]);
    assert_eq!(reduce_axis0_number_exact(&DATA, 3, 4, Kind::Max), vec![7, 8, 9, 10]);
    assert_eq!(reduce_axis0_number_exact(&DATA, 3, 4, Kind::LMedian), vec![5, 1, 6, 4]);
    // every other kind selects the lower median too
    assert_eq!(reduce_axis0_number_exact(&DATA, 3, 4, Kind::Mean), vec![5, 1, 6, 4]);
    assert_eq!(reduce_axis0_number_exact(&DATA, 2, 6, Kind::LMedian), vec![5, 1, 7, 0, -1, 8]);
}

#[test]
fn axis0_without_rows_keeps_the_first_elements() {
    assert_eq!(reduce_axis0_number_exact(&DATA, 0, 2, Kind::Min), vec![5, 1]);
    assert_eq!(reduce_axis0_number_exact(&DATA, 0, 0, Kind::LMedian), Vec::<i32>::new());
}

#[test]
fn columns_are_rows_of_the_transpose() {
    let t = transpose(&DATA, 3, 4);
    for kind in [Kind::Min, Kind::Max, Kind::LMedian] {
        assert_eq!(
            reduce_axis0_number_exact(&DATA, 3, 4, kind),
            reduce_axis_last_number_exact(&t, 4, 3, kind)
        );
    }
}

#[test]
fn bool_and_unsigned_axes() {
    let b = [true, false, false, true, true, true];
    assert_eq!(reduce_axis_last_number_exact(&b, 2, 3, Kind::Min), vec![false, true]);
    assert_eq!(reduce_axis0_number_exact(&b, 2, 3, Kind::Max), vec![true, true, true]);
    let u = [u64::MAX, 1, 2, 3];
    assert_eq!(reduce_axis_last_number_exact(&u, 1, 4, Kind::LMedian), vec![2]);
}

#[test]
fn exact_dispatch() {
    assert_eq!(reduce_axis_number_exact(&DATA, 3, 4, Kind::Min, true), Some(vec![1, 2, -1]));
    assert_eq!(reduce_axis_number_exact(&DATA, 3, 4, Kind::Max, false), Some(vec![7, 8, 9, 10]));
    assert_eq!(reduce_axis_number_exact(&DATA, 3, 4, Kind::LMedian, false), Some(vec![5, 1, 6, 4]));
    // float results and empty reducing axes are not exact
    assert_eq!(reduce_axis_number_exact(&DATA, 3, 4, Kind::Median, true), None);
    assert_eq!(reduce_axis_number_exact(&DATA, 3, 4, Kind::Mean, false), None);
    assert_eq!(reduce_axis_number_exact(&DATA, 3, 0, Kind::Min, true), None);
    assert_eq!(reduce_axis_number_exact(&DATA, 0, 3, Kind::Max, false), None);
    assert_eq!(reduce_axis_number_exact(&DATA, 0, 3, Kind::Max, true), Some(Vec::new()));
}

#[test]
fn results_laid_out_by_quantile() {
    let per_output = vec![vec![1, 2, 3], vec![4, 5, 6]];
    assert_eq!(quantile_major(&per_output, 3), vec![1, 4, 2, 5, 3, 6]);
    let none: Vec<Vec<u8>> = Vec::new();
    assert_eq!(quantile_major(&none, 4), Vec::<u8>::new());
    let no_q = vec![Vec::<i32>::new(), Vec::new()];
    assert_eq!(quantile_major(&no_q, 0), Vec::<i32>::new());
}

#[test]
fn axis0_column_ranges() {
    assert_eq!(reduce_axis0_number_exact_columns(&DATA, 3, 4, 1, 2, Kind::Min), vec![0, -1]);
    assert_eq!(reduce_axis0_number_exact_columns(&DATA, 3, 4, 1, 2, Kind::Max), vec![8, 9]);
    assert_eq!(reduce_axis0_number_exact_columns(&DATA, 3, 4, 1, 2, Kind::LMedian), vec![1, 6]);
    assert_eq!(reduce_axis0_number_exact_columns(&DATA, 3, 4, 3, 1, Kind::Var), vec![4]);
    assert_eq!(reduce_axis0_number_exact_columns(&DATA, 3, 4, 4, 0, Kind::Min), Vec::<i32>::new());
    // the ranges put together give every column
    let mut joined = reduce_axis0_number_exact_columns(&DATA, 3, 4, 0, 3, Kind::Max);
    joined.extend(reduce_axis0_number_exact_columns(&DATA, 3, 4, 3, 1, Kind::Max));
    assert_eq!(joined, reduce_axis0_number_exact(&DATA, 3, 4, Kind::Max));
}
