use tensor_engine::errors::TensorError;
use tensor_engine::ops::binary::BinOp;
use tensor_engine::tensor::Tensor;
use tensor_engine::utils::conv_output_size;

#[test]
fn test_binary_addition_broadcast_grid() {
    let a: Tensor<i64> = Tensor::new_from_shape(&vec![1, 3], &vec![1, 2, 3]);
    let b: Tensor<i64> = Tensor::new_from_shape(&vec![2, 1], &vec![10, 20]);

    let r = a.addition(&b, 1, 1).unwrap();
    assert_eq!(r.get_sh(), &vec![2, 3]);
    assert_eq!(r.get_values(), &vec![11, 12, 13, 21, 22, 23]);
}

#[test]
fn test_binary_addition_scaled() {
    let a: Tensor<i64> = Tensor::new_from_shape(&vec![3], &vec![1, 2, 3]);
    let b: Tensor<i64> = Tensor::new_from_shape(&vec![3], &vec![10, 20, 30]);

    let r = a.addition(&b, 2, 3).unwrap();
    assert_eq!(r.get_values(), &vec![32, 64, 96]);
}

#[test]
fn test_binary_subtraction_multiply_divide() {
    let a: Tensor<i64> = Tensor::new_from_shape(&vec![3], &vec![10, 20, 30]);
    let b: Tensor<i64> = Tensor::new_from_shape(&vec![3], &vec![1, 2, 3]);

    assert_eq!(a.subtraction(&b, 1, 1).unwrap().get_values(), &vec![9, 18, 27]);
    assert_eq!(a.multiply(&b, 2).unwrap().get_values(), &vec![20, 80, 180]);
    assert_eq!(a.divide(&b, 1).unwrap().get_values(), &vec![10, 10, 10]);
}

#[test]
fn test_binary_divide_by_zero_gives_zero() {
    let a: Tensor<i64> = Tensor::new_from_shape(&vec![2], &vec![8, 9]);
    let b: Tensor<i64> = Tensor::new_from_shape(&vec![2], &vec![2, 0]);

    assert_eq!(a.divide(&b, 1).unwrap().get_values(), &vec![4, 0]);
}

#[test]
fn test_binary_power_int() {
    let a: Tensor<i64> = Tensor::new_from_shape(&vec![3], &vec![2, 3, 4]);
    let b: Tensor<i64> = Tensor::new_from_shape(&vec![3], &vec![0, 2, 3]);

    assert_eq!(a.power_int(&b).unwrap().get_values(), &vec![1, 9, 64]);
}

#[test]
fn test_binary_shape_mismatch_is_rejected() {
    let a: Tensor<i64> = Tensor::new_from_shape(&vec![2], &vec![1, 2]);
    let b: Tensor<i64> = Tensor::new_from_shape(&vec![3], &vec![1, 2, 3]);

    assert_eq!(a.binary_op(&b, BinOp::AddScaled(1, 1)), Err(TensorError::ShapeMismatch));
}

#[test]
fn test_clip_backward_masks_gradient() {
    let v: Tensor<i64> = Tensor::new_from_shape(&vec![4], &vec![-5, 0, 5, 11]);
    let g: Tensor<i64> = Tensor::new_from_shape(&vec![4], &vec![1, 2, 3, 4]);

    assert_eq!(v.clip_backward(0, 10, &g).unwrap().get_values(), &vec![0, 2, 3, 0]);
    assert_eq!(v.clip_min_backward(0, &g).unwrap().get_values(), &vec![0, 2, 3, 4]);
    assert_eq!(v.clip_max_backward(10, &g).unwrap().get_values(), &vec![1, 2, 3, 0]);
}

#[test]
fn test_unary_add_multiply_scalar() {
    let a: Tensor<i64> = Tensor::new_from_shape(&vec![3], &vec![1, 2, 3]);
    assert_eq!(a.add_multiply_scalar(10, 5).get_values(), &vec![15, 25, 35]);
}

#[test]
fn test_unary_clip_family() {
    let a: Tensor<i64> = Tensor::new_from_shape(&vec![5], &vec![-7, -1, 0, 4, 9]);
    assert_eq!(a.clip(-2, 5).get_values(), &vec![-2, -1, 0, 4, 5]);
    assert_eq!(a.clip_min(0).get_values(), &vec![0, 0, 0, 4, 9]);
    assert_eq!(a.clip_max(3).get_values(), &vec![-7, -1, 0, 3, 3]);
}

#[test]
fn test_unary_signed_family() {
    let a: Tensor<i64> = Tensor::new_from_shape(&vec![4], &vec![-3, 0, 2, -8]);
    assert_eq!(a.abs().get_values(), &vec![3, 0, 2, 8]);
    assert_eq!(a.sign().get_values(), &vec![-1, 0, 1, -1]);
    assert_eq!(a.negate().get_values(), &vec![3, 0, -2, 8]);
}

#[test]
fn test_unary_power_scalar_int() {
    let a: Tensor<i64> = Tensor::new_from_shape(&vec![3], &vec![1, 2, 3]);
    assert_eq!(a.power_scalar_int(2, 10).get_values(), &vec![10, 40, 90]);
    assert_eq!(a.power_scalar_int(0, 5).get_values(), &vec![5, 5, 5]);
}

#[test]
fn test_unary_keeps_shape_and_strides() {
    let a: Tensor<i64> = Tensor::new_from_shape(&vec![1, 3], &vec![1, 2, 3]);
    let r = a.add_multiply_scalar(1, 0);
    assert_eq!(r.get_sh(), &vec![1, 3]);
    assert_eq!(r.get_strides(), &vec![0, 1]);
}

#[test]
fn test_conv_output_size_basic() {
    assert_eq!(
        conv_output_size(&vec![1, 1, 5], &vec![1, 1, 3], &vec![0, 0], &vec![1], &vec![1]),
        vec![3]
    );
    assert_eq!(
        conv_output_size(&vec![1, 1, 5, 5], &vec![1, 1, 3, 3], &vec![1, 1, 1, 1], &vec![1, 1], &vec![
            2, 2,
        ]),
        vec![3, 3]
    );
}
