use lexrank_ndarray::layout::{
    clear_flagged_lines,
    chunks_of, flatten_rows, mirror_upper_to_lower, split_rows, transpose_square, uniform_dims,
    wide_size, LANES,
};

#[test]
fn wide_size_rounds_up_to_whole_registers() {
    assert_eq!(wide_size(0), 0);
    assert_eq!(wide_size(1), 1);
    assert_eq!(wide_size(4), 1);
    assert_eq!(wide_size(5), 2);
    assert_eq!(wide_size(8), 2);
    assert_eq!(wide_size(384), 96);
    assert_eq!(wide_size(385), 97);
    assert_eq!(wide_size(usize::MAX - 3), usize::MAX / 4);
    assert_eq!(wide_size(usize::MAX), usize::MAX / 4 + 1);
}

#[test]
fn chunks_of_keeps_a_short_last_chunk() {
    let v = [1u32, 2, 3, 4, 5];
    assert_eq!(chunks_of(&v, 2), vec![vec![1, 2], vec![3, 4], vec![5]]);
    assert_eq!(chunks_of(&v, 5), vec![vec![1, 2, 3, 4, 5]]);
    assert_eq!(chunks_of(&v, 7), vec![vec![1, 2, 3, 4, 5]]);
}

#[test]
fn chunks_of_empty_slice_has_no_chunks() {
    let v: [u8; 0] = [];
    assert!(chunks_of(&v, 3).is_empty());
}

#[test]
fn chunks_then_flatten_gives_the_input_back() {
    let v: Vec<f32> = (0..23).map(|x| x as f32 * 0.5).collect();
    for size in 1..10 {
        assert_eq!(flatten_rows(&chunks_of(&v, size)), v);
    }
}

#[test]
fn lane_chunks_count_matches_wide_size() {
    for len in 0..40usize {
        let v: Vec<f32> = vec![1.0; len];
        let chunks = chunks_of(&v, LANES);
        assert_eq!(chunks.len(), wide_size(len));
        for c in &chunks {
            assert!(!c.is_empty() && c.len() <= LANES);
        }
    }
}

#[test]
fn split_rows_without_data_or_dimensions_is_empty() {
    let v = [1.0f32, 2.0, 3.0, 4.0];
    assert!(split_rows(&v, 0, 2).is_empty());
    assert!(split_rows(&v, 2, 0).is_empty());
    let none: [f32; 0] = [];
    assert!(split_rows(&none, 2, 2).is_empty());
}

#[test]
fn split_rows_cuts_by_column_count() {
    let v = [1, 2, 3, 4, 5, 6];
    assert_eq!(split_rows(&v, 2, 3), vec![vec![1, 2, 3], vec![4, 5, 6]]);
    // the row count does not limit the rows
    assert_eq!(split_rows(&v, 5, 2), vec![vec![1, 2], vec![3, 4], vec![5, 6]]);
}

#[test]
fn flatten_rows_concatenates_in_order() {
    let rows = vec![vec![1, 2], vec![], vec![3], vec![4, 5, 6]];
    assert_eq!(flatten_rows(&rows), vec![1, 2, 3, 4, 5, 6]);
    let empty: Vec<Vec<u8>> = vec![];
    assert!(flatten_rows(&empty).is_empty());
}

#[test]
fn uniform_dims_of_rows() {
    let empty: Vec<Vec<f32>> = vec![];
    assert_eq!(uniform_dims(&empty), Some((0, 0)));
    assert_eq!(uniform_dims(&vec![vec![1.0f32, 2.0], vec![3.0, 4.0], vec![5.0, 6.0]]), Some((3, 2)));
    assert_eq!(uniform_dims(&vec![vec![1.0f32, 2.0], vec![3.0]]), None);
    assert_eq!(uniform_dims(&vec![Vec::<f32>::new(), vec![]]), Some((2, 0)));
}

#[test]
fn mirror_copies_upper_triangle_down() {
    let mut m = vec![0, 1, 2, 9, 4, 5, 9, 9, 8];
    mirror_upper_to_lower(&mut m, 3);
    assert_eq!(m, vec![0, 1, 2, 1, 4, 5, 2, 5, 8]);
    for i in 0..3 {
        for j in 0..3 {
            assert_eq!(m[i * 3 + j], m[j * 3 + i]);
        }
    }
    let mut one = vec![7];
    mirror_upper_to_lower(&mut one, 1);
    assert_eq!(one, vec![7]);
    let mut none: Vec<i32> = vec![];
    mirror_upper_to_lower(&mut none, 0);
    assert!(none.is_empty());
}

#[test]
fn transpose_square_swaps_rows_and_columns() {
    let m = vec![1, 2, 3, 4, 5, 6, 7, 8, 9];
    let t = transpose_square(&m, 3);
    assert_eq!(t, vec![1, 4, 7, 2, 5, 8, 3, 6, 9]);
    assert_eq!(transpose_square(&t, 3), m);
    let none: Vec<f32> = vec![];
    assert!(transpose_square(&none, 0).is_empty());
}

#[test]
fn uniform_rows_round_trip_through_a_flat_buffer() {
    let rows = vec![vec![1.0f32, 2.0, 3.0], vec![4.0, 5.0, 6.0], vec![7.0, 8.0, 9.0], vec![0.5, 0.25, 0.125]];
    let (n, c) = uniform_dims(&rows).unwrap();
    let flat = flatten_rows(&rows);
    assert_eq!(flat.len(), n * c);
    assert_eq!(split_rows(&flat, n, c), rows);
}

#[test]
fn clear_flagged_lines_zeroes_rows_and_columns() {
    let mut m = vec![1, 2, 3, 4, 5, 6, 7, 8, 9];
    clear_flagged_lines(&mut m, 3, &[false, true, false], 0);
    assert_eq!(m, vec![1, 0, 3, 0, 0, 0, 7, 0, 9]);
    let mut all = vec![1.0f32; 4];
    clear_flagged_lines(&mut all, 2, &[true, true], 0.0);
    assert_eq!(all, vec![0.0; 4]);
    let mut none = vec![5u8; 4];
    clear_flagged_lines(&mut none, 2, &[false, false], 0);
    assert_eq!(none, vec![5; 4]);
}
