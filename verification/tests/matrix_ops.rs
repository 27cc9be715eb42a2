use flashlight_tensor::tensor::Tensor;

fn tensor(data: Vec<i64>, shape: Vec<usize>) -> Tensor {
    Tensor::from_data(&data, &shape).unwrap()
}

#[test]
fn from_data_checks_length() {
    assert!(Tensor::from_data(&vec![1, 2, 3], &vec![2, 2]).is_none());
    assert!(Tensor::from_data(&vec![1, 2, 3, 4], &vec![2, 2]).is_some());
    assert!(Tensor::from_data(&vec![], &vec![2, 0, 3]).is_some());
    assert!(Tensor::from_data(&vec![1], &vec![2, 0, 3]).is_none());
    // an empty shape has product one: a rank-0 scalar
    assert!(Tensor::from_data(&vec![7], &vec![]).is_some());
    assert!(Tensor::from_data(&vec![], &vec![]).is_none());
}

#[test]
fn value_reads_elements() {
    let t = tensor(vec![1, 2, 3, 4, 5, 6], vec![2, 3]);
    assert_eq!(t.value(&[0, 0]), Some(1));
    assert_eq!(t.value(&[0, 2]), Some(3));
    assert_eq!(t.value(&[1, 0]), Some(4));
    assert_eq!(t.value(&[1, 2]), Some(6));
    assert_eq!(t.value(&[2, 0]), None);
    assert_eq!(t.value(&[0, 3]), None);
    assert_eq!(t.value(&[0]), None);
    assert_eq!(t.value(&[0, 0, 0]), None);
}

#[test]
fn matrix_extracts_trailing_slabs() {
    let data: Vec<i64> = (1..=8).collect();
    let t = tensor(data, vec![2, 2, 2]);

    let first = t.matrix(&[0]).unwrap();
    assert_eq!(first.get_data(), &vec![1, 2, 3, 4]);
    assert_eq!(first.get_shape(), &vec![2, 2]);

    let second = t.matrix(&[1]).unwrap();
    assert_eq!(second.get_data(), &vec![5, 6, 7, 8]);
    assert_eq!(second.get_shape(), &vec![2, 2]);
}

#[test]
fn matrix_rank_four() {
    let data: Vec<i64> = (1..=24).collect();
    let t = tensor(data, vec![2, 2, 2, 3]);
    let slab = t.matrix(&[1, 0]).unwrap();
    assert_eq!(slab.get_data(), &vec![13, 14, 15, 16, 17, 18]);
    assert_eq!(slab.get_shape(), &vec![2, 3]);
    let last = t.matrix(&[1, 1]).unwrap();
    assert_eq!(last.get_data(), &vec![19, 20, 21, 22, 23, 24]);
}

#[test]
fn matrix_rejects_bad_selectors() {
    let data: Vec<i64> = (1..=8).collect();
    let t = tensor(data, vec![2, 2, 2]);
    assert!(t.matrix(&[2]).is_none());
    assert!(t.matrix(&[]).is_none());
    assert!(t.matrix(&[0, 0]).is_none());
    let m = tensor(vec![1, 2, 3, 4], vec![2, 2]);
    assert!(m.matrix(&[]).is_some());
    assert!(m.matrix(&[0]).is_none());
}

#[test]
fn matrix_row_is_contiguous_block() {
    let t = tensor(vec![1, 2, 3, 4], vec![2, 2]);
    let row = t.matrix_row(0).unwrap();
    assert_eq!(row.get_data(), &vec![1, 2]);
    assert_eq!(row.get_shape(), &vec![1, 2]);
    let row1 = t.matrix_row(1).unwrap();
    assert_eq!(row1.get_data(), &vec![3, 4]);
    assert!(t.matrix_row(2).is_none());
}

#[test]
fn matrix_col_gathers_strided() {
    let t = tensor(vec![1, 2, 3, 4], vec![2, 2]);
    let col = t.matrix_col(1).unwrap();
    assert_eq!(col.get_data(), &vec![2, 4]);
    assert_eq!(col.get_shape(), &vec![2, 1]);
    let col0 = t.matrix_col(0).unwrap();
    assert_eq!(col0.get_data(), &vec![1, 3]);
    assert!(t.matrix_col(2).is_none());
}

#[test]
fn transpose_reverses_shape() {
    let t = tensor(vec![1, 2, 3, 4, 5, 6], vec![2, 3]);
    let tt = t.matrix_transpose().unwrap();
    assert_eq!(tt.get_data(), &vec![1, 4, 2, 5, 3, 6]);
    assert_eq!(tt.get_shape(), &vec![3, 2]);
}

#[test]
fn transpose_round_trip() {
    let t = tensor(vec![3, 1, 4, 1, 5, 9, 2, 6], vec![4, 2]);
    let back = t.matrix_transpose().unwrap().matrix_transpose().unwrap();
    assert_eq!(back.get_data(), t.get_data());
    assert_eq!(back.get_shape(), t.get_shape());
}

#[test]
fn matrix_mul_concrete() {
    let data: Vec<i64> = vec![1, 2, 3, 4, 5, 6];
    let a = tensor(data.clone(), vec![3, 2]);
    let b = tensor(data, vec![2, 3]);
    let p = a.matrix_mul(&b).unwrap();
    assert_eq!(p.get_data(), &vec![9, 12, 15, 19, 26, 33, 29, 40, 51]);
    assert_eq!(p.get_shape(), &vec![3, 3]);
}

#[test]
fn matrix_mul_defined_iff_inner_dims_match() {
    let a = tensor(vec![1, 2, 3, 4, 5, 6], vec![3, 2]);
    let b = tensor(vec![1, 2, 3, 4, 5, 6], vec![3, 2]);
    assert!(a.matrix_mul(&b).is_none());
    let c = tensor(vec![1, 2, 3, 4, 5, 6], vec![2, 3]);
    assert!(a.matrix_mul(&c).is_some());
    assert!(c.matrix_mul(&a).is_some());
}

#[test]
fn matrix_mul_associative_spot_check() {
    let a = tensor(vec![1, 2, 3, 4], vec![2, 2]);
    let b = tensor(vec![5, 6, 7, 8], vec![2, 2]);
    let c = tensor(vec![-1, 0, 2, 3], vec![2, 2]);
    let left = a.matrix_mul(&b).unwrap().matrix_mul(&c).unwrap();
    let right = a.matrix_mul(&b.matrix_mul(&c).unwrap()).unwrap();
    assert_eq!(left.get_data(), right.get_data());
    assert_eq!(left.get_shape(), right.get_shape());
}

#[test]
fn matrix_mul_distributive_spot_check() {
    // a * (b + c) == a * b + a * c, with the addition done entrywise here
    let a = tensor(vec![1, 2, 3, 4], vec![2, 2]);
    let b = vec![5, 6, 7, 8];
    let c = vec![-1, 0, 2, 3];
    let bc: Vec<i64> = b.iter().zip(c.iter()).map(|(x, y)| x + y).collect();
    let sum_first = a.matrix_mul(&tensor(bc, vec![2, 2])).unwrap();
    let ab = a.matrix_mul(&tensor(b, vec![2, 2])).unwrap();
    let ac = a.matrix_mul(&tensor(c, vec![2, 2])).unwrap();
    let sum_after: Vec<i64> = ab
        .get_data()
        .iter()
        .zip(ac.get_data().iter())
        .map(|(x, y)| x + y)
        .collect();
    assert_eq!(sum_first.get_data(), &sum_after);
}

#[test]
fn dot_product_matches_by_hand() {
    let a = tensor(vec![1, 2, 3], vec![3]);
    let b = tensor(vec![4, 5, 6], vec![3]);
    assert_eq!(a.dot_product(&b), Some(32));
    let short = tensor(vec![1, 2], vec![2]);
    assert_eq!(a.dot_product(&short), None);
}

#[test]
fn col_sum_merges_columns() {
    let t = tensor(vec![1, 2, 3, 4, 5, 6], vec![3, 2]);
    let s = t.matrix_col_sum().unwrap();
    assert_eq!(s.get_data(), &vec![3, 7, 11]);
    assert_eq!(s.get_shape(), &vec![3, 1]);
}

#[test]
fn row_sum_merges_rows() {
    let t = tensor(vec![1, 2, 3, 4, 5, 6], vec![3, 2]);
    let s = t.matrix_row_sum().unwrap();
    assert_eq!(s.get_data(), &vec![9, 12]);
    assert_eq!(s.get_shape(), &vec![1, 2]);
}

#[test]
fn col_prod_merges_columns() {
    let t = tensor(vec![1, 2, 3, 4, 5, 6], vec![3, 2]);
    let p = t.matrix_col_prod().unwrap();
    assert_eq!(p.get_data(), &vec![2, 12, 30]);
    assert_eq!(p.get_shape(), &vec![3, 1]);
}

#[test]
fn row_prod_merges_rows() {
    let t = tensor(vec![1, 2, 3, 4, 5, 6], vec![3, 2]);
    let p = t.matrix_row_prod().unwrap();
    assert_eq!(p.get_data(), &vec![15, 48]);
    assert_eq!(p.get_shape(), &vec![1, 2]);
}

#[test]
fn grand_total_agrees_both_ways() {
    let t = tensor(vec![1, -2, 3, 4, 5, -6, 7, 8, 9, 10, 11, 12], vec![3, 4]);
    let by_rows = t.matrix_col_sum().unwrap();
    let by_cols = t.matrix_row_sum().unwrap();
    let total_rows: i64 = by_rows.get_data().iter().sum();
    let total_cols: i64 = by_cols.get_data().iter().sum();
    let total: i64 = t.get_data().iter().sum();
    assert_eq!(total_rows, total);
    assert_eq!(total_cols, total);
}

#[test]
fn to_string_two_by_two() {
    let t = tensor(vec![1, 2, 3, 4], vec![2, 2]);
    assert_eq!(t.matrix_to_string().unwrap(), "|1, 2|\n|3, 4|".to_string());
}

#[test]
fn to_string_negative_and_wide() {
    let t = tensor(vec![-1, 25, 0, 7, -300, 4], vec![2, 3]);
    assert_eq!(
        t.matrix_to_string().unwrap(),
        "|-1, 25, 0|\n|7, -300, 4|".to_string()
    );
}

#[test]
fn to_string_single_cell() {
    let t = tensor(vec![-9], vec![1, 1]);
    assert_eq!(t.matrix_to_string().unwrap(), "|-9|".to_string());
}

#[test]
fn rank_two_only_operations_reject_other_ranks() {
    let rank1 = tensor(vec![1, 2, 3, 4], vec![4]);
    let rank3 = tensor((1..=8).collect(), vec![2, 2, 2]);
    for t in [&rank1, &rank3] {
        assert!(t.matrix_row(0).is_none());
        assert!(t.matrix_col(0).is_none());
        assert!(t.matrix_transpose().is_none());
        assert!(t.matrix_to_string().is_none());
        assert!(t.matrix_col_sum().is_none());
        assert!(t.matrix_row_sum().is_none());
        assert!(t.matrix_col_prod().is_none());
        assert!(t.matrix_row_prod().is_none());
        let square = tensor(vec![1, 2, 3, 4], vec![2, 2]);
        assert!(t.matrix_mul(&square).is_none());
    }
}

#[test]
fn value_rank_three() {
    let t = tensor((1..=8).collect(), vec![2, 2, 2]);
    assert_eq!(t.value(&[0, 0, 0]), Some(1));
    assert_eq!(t.value(&[1, 0, 1]), Some(6));
    assert_eq!(t.value(&[1, 1, 1]), Some(8));
}

#[test]
fn mul_with_zero_inner_dim() {
    let a = tensor(vec![], vec![2, 0]);
    let b = tensor(vec![], vec![0, 3]);
    let p = a.matrix_mul(&b).unwrap();
    assert_eq!(p.get_data(), &vec![0, 0, 0, 0, 0, 0]);
    assert_eq!(p.get_shape(), &vec![2, 3]);
}

#[test]
fn from_data_rejects_overflowing_shape() {
    assert!(Tensor::from_data(&vec![], &vec![usize::MAX, 2]).is_none());
}

#[test]
fn matrix_with_empty_selector_copies_rank_two() {
    let t = tensor(vec![1, 2, 3, 4], vec![2, 2]);
    let m = t.matrix(&[]).unwrap();
    assert_eq!(m.get_data(), t.get_data());
    assert_eq!(m.get_shape(), t.get_shape());
}

#[test]
fn empty_matrix_edge_cases() {
    let no_rows = tensor(vec![], vec![0, 3]);
    assert_eq!(no_rows.matrix_col_sum().unwrap().get_data(), &vec![]);
    assert_eq!(no_rows.matrix_row_sum().unwrap().get_data(), &vec![0, 0, 0]);
    assert!(no_rows.matrix_row(0).is_none());
    let tt = no_rows.matrix_transpose().unwrap();
    assert_eq!(tt.get_shape(), &vec![3, 0]);
    assert_eq!(no_rows.matrix_to_string().unwrap(), "".to_string());
}
