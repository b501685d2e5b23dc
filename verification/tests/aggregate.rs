use tensor_engine::errors::TensorError;
use tensor_engine::ops::aggregate::pool_result;
use tensor_engine::ops::aggregate::CombineOp;
use tensor_engine::ops::aggregate::InitOp;
use tensor_engine::ops::aggregate::PostOp;
use tensor_engine::tensor::Tensor;

#[test]
fn test_sum_reduction_examples() {
    let t: Tensor<i64> = Tensor::new_from_shape(&vec![2, 3], &vec![1, 2, 3, 4, 5, 6]);

    let cols = t._sum(&vec![0], false).unwrap();
    assert_eq!(cols.get_sh(), &vec![3]);
    assert_eq!(cols.get_values(), &vec![5, 7, 9]);

    let rows = t._sum(&vec![1], false).unwrap();
    assert_eq!(rows.get_sh(), &vec![2]);
    assert_eq!(rows.get_values(), &vec![6, 15]);
}

#[test]
fn test_sum_all_axes_gives_single_slot() {
    let t: Tensor<i64> = Tensor::new_from_shape(&vec![2, 2], &vec![1, 2, 3, 4]);
    let r = t._sum(&vec![0, 1], false).unwrap();
    assert_eq!(r.get_sh(), &vec![1]);
    assert_eq!(r.get_values(), &vec![10]);
}

#[test]
fn test_sum_keep_dims() {
    let t: Tensor<i64> = Tensor::new_from_shape(&vec![2, 3], &vec![1, 2, 3, 4, 5, 6]);
    let r = t._sum(&vec![0], true).unwrap();
    assert_eq!(r.get_sh(), &vec![1, 3]);
    assert_eq!(r.get_values(), &vec![5, 7, 9]);
}

#[test]
fn test_product_max_min() {
    let t: Tensor<i64> = Tensor::new_from_shape(&vec![2, 3], &vec![1, 2, 3, 4, 5, 6]);

    assert_eq!(t._product(&vec![0], false).unwrap().get_values(), &vec![4, 10, 18]);
    assert_eq!(t._product(&vec![1], false).unwrap().get_values(), &vec![6, 120]);
    assert_eq!(t._max(&vec![0], false).unwrap().get_values(), &vec![4, 5, 6]);
    assert_eq!(t._min(&vec![1], false).unwrap().get_values(), &vec![1, 4]);
}

#[test]
fn test_sum_square() {
    let t: Tensor<i64> = Tensor::new_from_shape(&vec![2, 2], &vec![1, 2, 3, 4]);
    assert_eq!(t._sum_square(&vec![0], false).unwrap().get_values(), &vec![10, 20]);
}

#[test]
fn test_reduction_paths_agree_on_middle_and_last_axes() {
    let t: Tensor<i64> = Tensor::new_from_shape(
        &vec![2, 3, 4],
        &vec![
            1, 2, 3, 4, 5, 6, 7, 8, 9, 10, 11, 12, 13, 14, 15, 16, 17, 18, 19, 20, 21, 22, 23, 24,
        ],
    );

    // The contiguous [1, 2] run takes the strided fast path; [0, 2] cannot.
    let fast = t._sum(&vec![1, 2], false).unwrap();
    assert_eq!(fast.get_sh(), &vec![2]);
    assert_eq!(fast.get_values(), &vec![78, 222]);

    let generic = t._sum(&vec![0, 2], false).unwrap();
    assert_eq!(generic.get_sh(), &vec![3]);
    assert_eq!(generic.get_values(), &vec![68, 100, 132]);

    let trailing = t._sum(&vec![2], false).unwrap();
    assert_eq!(trailing.get_sh(), &vec![2, 3]);
    assert_eq!(trailing.get_values(), &vec![10, 26, 42, 58, 74, 90]);
}

#[test]
fn test_fast_path_matches_generic_path() {
    let t: Tensor<i64> = Tensor::new_from_shape(
        &vec![2, 3, 4],
        &vec![
            5, 1, 4, 1, 5, 9, 2, 6, 5, 3, 5, 8, 9, 7, 9, 3, 2, 3, 8, 4, 6, 2, 6, 4,
        ],
    );

    // The strided fast path and the generic projected fold must agree
    // wherever both apply: a contiguous middle-and-last axis pair.
    let fast: Tensor<i64> = t.pool_continuous(
        &vec![1, 2],
        false,
        CombineOp::Sum,
        InitOp::Id,
        PostOp::Id,
    );
    let generic = t._sum(&vec![1, 2], false).unwrap();
    assert_eq!(fast.get_sh(), generic.get_sh());
    assert_eq!(fast.get_values(), generic.get_values());

    let fast_keep: Tensor<i64> = t.pool_continuous(
        &vec![1],
        true,
        CombineOp::Max,
        InitOp::Id,
        PostOp::Id,
    );
    let generic_keep = t._max(&vec![1], true).unwrap();
    assert_eq!(fast_keep.get_sh(), generic_keep.get_sh());
    assert_eq!(fast_keep.get_values(), generic_keep.get_values());
}

#[test]
fn test_power_int_negative_exponent_reads_as_zero() {
    let a: Tensor<i64> = Tensor::new_from_shape(&vec![2], &vec![5, 7]);
    let b: Tensor<i64> = Tensor::new_from_shape(&vec![2], &vec![-3, 1]);
    assert_eq!(a.power_int(&b).unwrap().get_values(), &vec![1, 7]);
}

#[test]
fn test_mean_is_sum_divided_by_pool_size() {
    let t: Tensor<i64> = Tensor::new_from_shape(&vec![2, 3], &vec![1, 2, 3, 4, 5, 7]);

    let sum = t._sum(&vec![0, 1], false).unwrap();
    let mean = t._reduce_mean(&vec![0, 1], false).unwrap();
    assert_eq!(sum.get_values(), &vec![22]);
    assert_eq!(mean.get_values(), &vec![sum.get_values()[0] / (t.size as i64)]);

    let col_mean = t._reduce_mean(&vec![0], false).unwrap();
    assert_eq!(col_mean.get_values(), &vec![2, 3, 5]);
}

#[test]
fn test_mean_square() {
    let t: Tensor<i64> = Tensor::new_from_shape(&vec![2], &vec![2, 4]);
    assert_eq!(t._reduce_mean_square(&vec![0], false).unwrap().get_values(), &vec![10]);
}

#[test]
fn test_axes_continuous() {
    let t: Tensor<i64> = Tensor::new_from_shape(&vec![2, 2, 2], &vec![1, 2, 3, 4, 5, 6, 7, 8]);
    assert!(t.axes_continuous(&vec![0, 1]));
    assert!(t.axes_continuous(&vec![1, 2]));
    assert!(t.axes_continuous(&vec![1]));
    assert!(!t.axes_continuous(&vec![0, 2]));
}

#[test]
fn test_reduction_error_cases() {
    let t: Tensor<i64> = Tensor::new_from_shape(&vec![2, 3], &vec![1, 2, 3, 4, 5, 6]);
    assert_eq!(t._sum(&vec![], false), Err(TensorError::ShapeMismatch));
    assert_eq!(t._sum(&vec![5], false), Err(TensorError::AxisOutOfRange));
    assert_eq!(t._sum(&vec![1, 0], false), Err(TensorError::ShapeMismatch));

    let empty: Tensor<i64> = Tensor::new_from_shape(&vec![0, 3], &vec![]);
    assert_eq!(empty._sum(&vec![0], false), Err(TensorError::EmptyTensor));
}

#[test]
fn test_mean_unrepresentable_pool_size() {
    let values: Vec<u8> = vec![0; 256];
    let t: Tensor<u8> = Tensor::new_from_shape(&vec![256], &values);
    assert_eq!(t._reduce_mean(&vec![0], false), Err(TensorError::UnrepresentableConstant));
}

#[test]
fn test_arg_max_and_min_coordinates() {
    let t: Tensor<i64> = Tensor::new_from_shape(&vec![2, 3], &vec![1, 5, 3, 4, 2, 6]);

    let cols = t._arg_max(&vec![0], false).unwrap();
    assert_eq!(cols.get_sh(), &vec![3, 1]);
    assert_eq!(cols.get_values(), &vec![1, 0, 1]);

    let rows = t._arg_max(&vec![1], false).unwrap();
    assert_eq!(rows.get_sh(), &vec![2, 1]);
    assert_eq!(rows.get_values(), &vec![1, 2]);

    let min_rows = t._arg_min(&vec![1], false).unwrap();
    assert_eq!(min_rows.get_values(), &vec![0, 1]);

    let all = t._arg_max(&vec![0, 1], false).unwrap();
    assert_eq!(all.get_sh(), &vec![2]);
    assert_eq!(all.get_values(), &vec![1, 2]);
}

#[test]
fn test_arg_max_tie_break() {
    let t: Tensor<i64> = Tensor::new_from_shape(&vec![4], &vec![7, 7, 3, 7]);

    assert_eq!(t._arg_max(&vec![0], false).unwrap().get_values(), &vec![0]);
    assert_eq!(t._arg_max(&vec![0], true).unwrap().get_values(), &vec![3]);
    assert_eq!(t._arg_min(&vec![0], false).unwrap().get_values(), &vec![2]);
    assert_eq!(t._arg_min(&vec![0], true).unwrap().get_values(), &vec![2]);
}

#[test]
fn test_arg_reduction_error_cases() {
    let t: Tensor<i64> = Tensor::new_from_shape(&vec![2, 3], &vec![1, 2, 3, 4, 5, 6]);
    assert_eq!(t._arg_max(&vec![], false), Err(TensorError::ShapeMismatch));
    assert_eq!(t._arg_max(&vec![7], false), Err(TensorError::AxisOutOfRange));

    let empty: Tensor<i64> = Tensor::new_from_shape(&vec![0], &vec![]);
    assert_eq!(empty._arg_min(&vec![0], false), Err(TensorError::EmptyTensor));
}

#[test]
fn test_pool_result_layout() {
    let (shape, map) = pool_result(&vec![2, 3, 4], &vec![1], false);
    assert_eq!(shape, vec![2, 4]);
    assert_eq!(map, vec![0, 2]);

    let (shape2, map2) = pool_result(&vec![2, 3, 4], &vec![1], true);
    assert_eq!(shape2, vec![2, 1, 4]);
    assert_eq!(map2, vec![0, 1, 2]);

    // Reducing over every axis without keeping dimensions yields one slot.
    let (shape3, map3) = pool_result(&vec![2, 3], &vec![0, 1], false);
    assert_eq!(shape3, vec![1]);
    assert_eq!(map3, vec![0]);
}
