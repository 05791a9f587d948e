use tract::fuse::{FusedKerSpec, FusedSpec, QuantizedParam, ScratchSpaceFusedNonLinear};

#[test]
fn check_non_linear_enum_size() {
    assert_eq!(std::mem::size_of::<FusedKerSpec<f32>>(), 3 * std::mem::size_of::<usize>())
}

#[test]
fn for_tile_takes_the_rows_and_columns_of_the_tile() {
    let specs = vec![
        FusedSpec::Min(3i32),
        FusedSpec::PerRowMul(vec![1, 2, 3, 4, 5]),
        FusedSpec::PerColAdd(vec![10, 20, 30]),
        FusedSpec::AddRowColProducts(vec![1, 2], vec![3, 4, 5, 6]),
        FusedSpec::QEven(7, 2),
    ];
    let mut scratch = ScratchSpaceFusedNonLinear::new();
    scratch.for_tile(&specs, 1, 1, 4, 2, 0);
    assert_eq!(scratch.uspecs.len(), 6);
    assert_eq!(scratch.uspecs[0], FusedKerSpec::Min(3));
    assert_eq!(scratch.uspecs[1], FusedKerSpec::PerRowMul(0));
    assert_eq!(scratch.non_linear_buffers[0], vec![5, 0, 0, 0]);
    assert_eq!(scratch.uspecs[2], FusedKerSpec::PerColAdd(1));
    assert_eq!(scratch.non_linear_buffers[1], vec![30, 0]);
    assert_eq!(scratch.uspecs[3], FusedKerSpec::AddRowColProducts(2, 3));
    assert_eq!(scratch.non_linear_buffers[2], vec![0, 0, 0, 0]);
    assert_eq!(scratch.non_linear_buffers[3], vec![5, 6]);
    assert_eq!(scratch.uspecs[4], FusedKerSpec::QEven(7, 2));
    assert_eq!(scratch.uspecs[5], FusedKerSpec::Done);
    scratch.for_tile(&specs, 0, 0, 4, 2, 0);
    assert_eq!(scratch.uspecs.len(), 6);
    assert_eq!(scratch.non_linear_buffers[0], vec![1, 2, 3, 4]);
    assert_eq!(scratch.non_linear_buffers[1], vec![10, 20]);
}

#[test]
fn quantized_params() {
    let p = QuantizedParam::Vector(vec![1u8, 2]);
    assert_eq!(p.clone(), p);
    assert_ne!(p, QuantizedParam::Scalar(1u8));
}
