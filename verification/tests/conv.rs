use tract::ops::{Conv, PaddingSpec};

fn shape_of(op: &Conv, data: Vec<usize>, kernel: Vec<usize>) -> Vec<usize> {
    op.output_shape(&data, &kernel).unwrap()
}

#[test]
fn test_infer_with_known_kshape() {
    let op = Conv::new().strides(vec![2, 2]).kernel_shape(vec![3, 3]);
    assert_eq!(shape_of(&op, vec![1, 1, 7, 5], vec![1, 1, 3, 3]), vec![1, 1, 3, 2]);
}

#[test]
fn test_infer_channels() {
    let op = Conv::new();
    assert_eq!(shape_of(&op, vec![1, 2, 1, 1], vec![3, 2, 1, 1]), vec![1, 3, 1, 1]);
}

#[test]
fn test_infer_onxx_strides_no_padding() {
    let op = Conv::new().strides(vec![2, 2]);
    assert_eq!(shape_of(&op, vec![1, 1, 7, 5], vec![1, 1, 3, 3]), vec![1, 1, 3, 2]);
}

#[test]
fn test_infer_nhwc_1() {
    let op = Conv::new().nhwc().hwio().padding(PaddingSpec::SameUpper);
    assert_eq!(shape_of(&op, vec![1, 2, 2, 2], vec![2, 2, 2, 1]), vec![1, 2, 2, 1]);
}

#[test]
fn test_infer_nhwc_2() {
    let op = Conv::new().nhwc().hwio().padding(PaddingSpec::SameUpper);
    assert_eq!(shape_of(&op, vec![1, 1, 2, 2], vec![2, 1, 2, 1]), vec![1, 1, 2, 1]);
}

#[test]
fn test_infer_ntc_simple() {
    let op = Conv::new().nhwc().hwio().padding(PaddingSpec::SameUpper);
    assert_eq!(shape_of(&op, vec![1, 2, 1], vec![1, 1, 1]), vec![1, 2, 1]);
}

#[test]
fn test_infer_ntc_batch() {
    let op = Conv::new().nhwc().hwio().padding(PaddingSpec::SameUpper);
    assert_eq!(shape_of(&op, vec![2, 1, 1], vec![1, 1, 1]), vec![2, 1, 1]);
}

#[test]
fn test_infer_ntc_channel() {
    let op = Conv::new().nhwc().hwio().padding(PaddingSpec::SameUpper);
    assert_eq!(shape_of(&op, vec![1, 1, 2], vec![1, 2, 1]), vec![1, 1, 1]);
}
