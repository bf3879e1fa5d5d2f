use audiovis::utils::{convert_vecs, transpose};

#[test]
fn convert_vecs_widens_elementwise() {
    let v: Vec<i16> = vec![-3, 0, 7, i16::MAX];
    let r: Vec<i32> = convert_vecs(v);
    assert_eq!(r, vec![-3i32, 0, 7, 32767]);
}

#[test]
fn convert_vecs_keeps_length_on_empty_input() {
    let v: Vec<u8> = Vec::new();
    let r: Vec<u64> = convert_vecs(v);
    assert!(r.is_empty());
}

#[test]
fn transpose_swaps_rows_and_columns() {
    let v = vec![vec![1, 2, 3], vec![4, 5, 6]];
    let r = transpose(v);
    assert_eq!(r, vec![vec![1, 4], vec![2, 5], vec![3, 6]]);
}

#[test]
fn transpose_truncates_long_rows_to_the_first() {
    let v = vec![vec![1, 2], vec![3, 4, 5]];
    let r = transpose(v);
    assert_eq!(r, vec![vec![1, 3], vec![2, 4]]);
}

#[test]
fn transpose_of_single_row_is_a_column() {
    let v = vec![vec![9, 8, 7]];
    let r = transpose(v);
    assert_eq!(r, vec![vec![9], vec![8], vec![7]]);
}
