use tensor_engine::errors::TensorError;
use tensor_engine::tensor::Tensor;

const DELTA: u32 = 1;

#[test]
fn test_tensor_sparse_reshape() {
    let a: Tensor<u32> = Tensor::new_from_shape(&vec![1, 1], &vec![0]);
    let expected = Tensor::new_from_shape(&vec![2, 1], &vec![0, 1]);

    let result = a._reshape_sparse_indices(&vec![2], &vec![4]).unwrap();

    assert!(result.compare(&expected, DELTA));
}

#[test]
fn test_tensor_sparse_reshape_only_dense() {
    let a: Tensor<u32> = Tensor::new_from_shape(&vec![1, 1], &vec![0]);
    let expected = Tensor::new_from_shape(&vec![1, 1], &vec![0]);

    let result = a._reshape_sparse_indices(&vec![2], &vec![2, 4]).unwrap();

    assert!(result.compare(&expected, DELTA));
}

#[test]
fn test_tensor_sparse_reshape_only_sparse() {
    let a: Tensor<u32> = Tensor::new_from_shape(&vec![2, 2], &vec![0, 0, 1, 1]);
    let expected = Tensor::new_from_shape(&vec![2, 1], &vec![0, 3]);

    let result = a._reshape_sparse_indices(&vec![2, 2], &vec![4, 1]).unwrap();

    assert!(result.compare(&expected, DELTA));
}

#[test]
fn test_tensor_sparse_reshape_all() {
    let a: Tensor<u32> = Tensor::new_from_shape(&vec![3, 2], &vec![0, 0, 0, 2, 1, 1]);
    let expected = Tensor::new_from_shape(&vec![6, 1], &vec![0, 1, 4, 5, 8, 9]);

    let result = a._reshape_sparse_indices(&vec![2, 3], &vec![12, 2]).unwrap();

    assert!(result.compare(&expected, DELTA));
}

#[test]
fn test_sparse_repeat_tiles_coordinates() {
    let a: Tensor<u32> = Tensor::new_from_shape(&vec![2, 2], &vec![0, 0, 1, 1]);

    let r = a._repeat_sparse_indices(&vec![2, 1], &vec![2, 2], 2).unwrap();
    assert_eq!(r.get_sh(), &vec![4, 2]);
    assert_eq!(r.get_values(), &vec![0, 0, 1, 1, 2, 0, 3, 1]);
}

#[test]
fn test_sparse_repeat_rejects_wrong_product() {
    let a: Tensor<u32> = Tensor::new_from_shape(&vec![2, 2], &vec![0, 0, 1, 1]);
    assert_eq!(
        a._repeat_sparse_indices(&vec![2, 1], &vec![2, 2], 3),
        Err(TensorError::ShapeMismatch)
    );
}

#[test]
fn test_add_index_offsets_one_column() {
    let a: Tensor<u32> = Tensor::new_from_shape(&vec![2, 2], &vec![0, 0, 1, 1]);

    let r = a.add_index(1, 2);
    assert_eq!(r.get_values(), &vec![0, 2, 1, 3]);

    let r0 = a.add_index(0, 5);
    assert_eq!(r0.get_values(), &vec![5, 0, 6, 1]);
}

#[test]
fn test_sparse_dense_add() {
    // Nonzeros at (0,0) and (1,1) of a [2, 2] grid, scalar blocks.
    let indices: Tensor<u32> = Tensor::new_from_shape(&vec![2, 2], &vec![0, 0, 1, 1]);
    let values: Tensor<i64> = Tensor::new_from_shape(&vec![2], &vec![1, 2]);
    let dense: Tensor<i64> = Tensor::new_from_shape(&vec![2, 2], &vec![10, 20, 30, 40]);

    let r = values._add_sparse_dense(&indices, &dense, &vec![2, 2], 1, 1).unwrap();
    assert_eq!(r.get_sh(), &vec![2]);
    assert_eq!(r.get_values(), &vec![11, 42]);

    let m = values._multiply_sparse_dense(&indices, &dense, &vec![2, 2], 3).unwrap();
    assert_eq!(m.get_values(), &vec![30, 240]);
}

#[test]
fn test_sparse_dense_blocks() {
    // One sparse axis over a [2, 2] logical shape: each nonzero carries a row.
    let indices: Tensor<u32> = Tensor::new_from_shape(&vec![2, 1], &vec![1, 0]);
    let values: Tensor<i64> = Tensor::new_from_shape(&vec![2, 2], &vec![1, 2, 3, 4]);
    let dense: Tensor<i64> = Tensor::new_from_shape(&vec![2, 2], &vec![10, 20, 30, 40]);

    let r = values._add_sparse_dense(&indices, &dense, &vec![2, 2], 1, 1).unwrap();
    assert_eq!(r.get_sh(), &vec![2, 2]);
    assert_eq!(r.get_values(), &vec![31, 42, 13, 24]);
}

#[test]
fn test_sparse_dense_broadcast_operand() {
    // The dense operand has a size-1 dense tail axis: every element of a
    // block re-reads the operand's row value through its stride of zero.
    let indices: Tensor<u32> = Tensor::new_from_shape(&vec![2, 1], &vec![1, 0]);
    let values: Tensor<i64> = Tensor::new_from_shape(&vec![2, 2], &vec![1, 2, 3, 4]);
    let column: Tensor<i64> = Tensor::new_from_shape(&vec![2, 1], &vec![10, 20]);

    let r = values._add_sparse_dense(&indices, &column, &vec![2, 2], 1, 1).unwrap();
    assert_eq!(r.get_sh(), &vec![2, 2]);
    assert_eq!(r.get_values(), &vec![21, 22, 13, 14]);
}

#[test]
fn test_sparse_sparse_add() {
    let a_indices: Tensor<u32> = Tensor::new_from_shape(&vec![2, 2], &vec![0, 0, 1, 1]);
    let a_values: Tensor<i64> = Tensor::new_from_shape(&vec![2], &vec![1, 2]);
    let b_indices: Tensor<u32> = Tensor::new_from_shape(&vec![2, 2], &vec![0, 0, 1, 1]);
    let b_values: Tensor<i64> = Tensor::new_from_shape(&vec![2], &vec![10, 20]);

    let r = a_values
        ._add_sparse_sparse(&a_indices, &b_indices, &b_values, &vec![2, 2], 1, 1)
        .unwrap();
    assert_eq!(r.get_sh(), &vec![2]);
    assert_eq!(r.get_values(), &vec![11, 22]);
}

#[test]
fn test_sparse_sparse_reordered_pattern() {
    let a_indices: Tensor<u32> = Tensor::new_from_shape(&vec![2, 2], &vec![0, 0, 1, 1]);
    let a_values: Tensor<i64> = Tensor::new_from_shape(&vec![2], &vec![1, 2]);
    let b_indices: Tensor<u32> = Tensor::new_from_shape(&vec![2, 2], &vec![1, 1, 0, 0]);
    let b_values: Tensor<i64> = Tensor::new_from_shape(&vec![2], &vec![20, 10]);

    let r = a_values
        ._subtract_sparse_sparse(&a_indices, &b_indices, &b_values, &vec![2, 2], 1, 1)
        .unwrap();
    assert_eq!(r.get_values(), &vec![-9, -18]);
}

#[test]
fn test_sparse_sparse_pattern_mismatch() {
    let a_indices: Tensor<u32> = Tensor::new_from_shape(&vec![2, 2], &vec![0, 0, 1, 1]);
    let a_values: Tensor<i64> = Tensor::new_from_shape(&vec![2], &vec![1, 2]);
    let b_indices: Tensor<u32> = Tensor::new_from_shape(&vec![2, 2], &vec![0, 0, 1, 0]);
    let b_values: Tensor<i64> = Tensor::new_from_shape(&vec![2], &vec![10, 20]);

    assert_eq!(
        a_values._add_sparse_sparse(&a_indices, &b_indices, &b_values, &vec![2, 2], 1, 1),
        Err(TensorError::SparsePatternMismatch)
    );
}

#[test]
fn test_sparse_aggregate_matches_dense_reduction() {
    let indices: Tensor<u32> = Tensor::new_from_shape(&vec![2, 2], &vec![0, 0, 1, 1]);
    let values: Tensor<i64> = Tensor::new_from_shape(&vec![2], &vec![3, 5]);

    // Densified, the sparse tensor is [[3, 0], [0, 5]].
    let dense: Tensor<i64> = Tensor::new_from_shape(&vec![2, 2], &vec![3, 0, 0, 5]);

    let sparse_cols = values._sum_sparse(&vec![2, 2], &indices, &vec![0], false).unwrap();
    let dense_cols = dense._sum(&vec![0], false).unwrap();
    assert_eq!(sparse_cols.get_sh(), dense_cols.get_sh());
    assert_eq!(sparse_cols.get_values(), dense_cols.get_values());

    let sparse_rows = values._sum_sparse(&vec![2, 2], &indices, &vec![1], false).unwrap();
    let dense_rows = dense._sum(&vec![1], false).unwrap();
    assert_eq!(sparse_rows.get_values(), dense_rows.get_values());

    let sparse_all = values._sum_sparse(&vec![2, 2], &indices, &vec![0, 1], false).unwrap();
    let dense_all = dense._sum(&vec![0, 1], false).unwrap();
    assert_eq!(sparse_all.get_values(), dense_all.get_values());
}

#[test]
fn test_sparse_sum_square() {
    let indices: Tensor<u32> = Tensor::new_from_shape(&vec![2, 2], &vec![0, 0, 1, 1]);
    let values: Tensor<i64> = Tensor::new_from_shape(&vec![2], &vec![3, 5]);

    let r = values._sum_square_sparse(&vec![2, 2], &indices, &vec![0], false).unwrap();
    assert_eq!(r.get_values(), &vec![9, 25]);
}

#[test]
fn test_sparse_mean_divides_by_visit_count() {
    // Two nonzeros land in the same output slot; empty slots keep their zero
    // rather than entering the denominator.
    let indices: Tensor<u32> = Tensor::new_from_shape(&vec![2, 2], &vec![0, 0, 1, 0]);
    let values: Tensor<i64> = Tensor::new_from_shape(&vec![2], &vec![4, 8]);

    let r = values._reduce_mean_sparse(&vec![2, 2], &indices, &vec![0], false).unwrap();
    assert_eq!(r.get_values(), &vec![6, 0]);
}
