use tract::datum::DatumType;
use tract::error::OpError;
use tract::ops::cnn::compute_len;
use tract::ops::scan::iterations;
use tract::ops::{
    AvgPool, Conv, DataFormat, InputMapping, OutputMapping, PaddingSpec, PoolSpec, StateInitializer,
};
use tract::pipeline::Stage;
use tract::quant::{cleanup_zeropoint, Tile};
use tract::tensor::Tensor;

#[test]
fn input_mappings() {
    let full: InputMapping<usize> = InputMapping::Full { slot: 2 };
    let scan: InputMapping<usize> = InputMapping::Scan { slot: 1, axis: 0, chunk: 4 };
    let from_input: InputMapping<usize> =
        InputMapping::State { initializer: StateInitializer::FromInput(3) };
    let value: InputMapping<usize> = InputMapping::State {
        initializer: StateInitializer::Value(Tensor::scalar(DatumType::I32, 0)),
    };
    assert_eq!(full.slot(), Some(2));
    assert_eq!(scan.slot(), Some(1));
    assert_eq!(from_input.slot(), Some(3));
    assert_eq!(value.slot(), None);
    assert_eq!(scan.as_scan(), Some((1, 0, 4)));
    assert_eq!(full.as_scan(), None);
    assert_eq!(from_input.as_state(), Some(&StateInitializer::FromInput(3)));
    assert_eq!(scan.as_state(), None);
    assert!(value.invisible());
    assert!(!from_input.invisible());
    assert!(!full.invisible());
}

#[test]
fn output_mappings() {
    let hidden: OutputMapping<usize, i32> = OutputMapping {
        full_slot: None,
        axis: 0,
        chunk: 1,
        full_dim_hint: None,
        last_value_slot: None,
        state: true,
    };
    assert!(hidden.invisible());
    let last = OutputMapping { last_value_slot: Some(0), ..hidden };
    assert!(!last.invisible());
    assert_eq!(iterations(10, 4), 3);
    assert_eq!(iterations(8, 4), 2);
    assert_eq!(iterations(0, 4), 0);
}

#[test]
fn conv_builders() {
    let op = Conv::new()
        .nhwc()
        .hwio()
        .padding(PaddingSpec::SameUpper)
        .dilations(vec![1, 2])
        .group(3)
        .strides(vec![2, 2])
        .kernel_shape(vec![3, 3])
        .bias_input(2)
        .x_zero_point_input(3)
        .k_zero_point_input(4)
        .override_output_datum_type(DatumType::I32);
    assert_eq!(op.data_format, DataFormat::NHWC);
    assert_eq!(op.padding, PaddingSpec::SameUpper);
    assert_eq!(op.dilations, Some(vec![1, 2]));
    assert_eq!(op.group, Some(3));
    assert_eq!(op.strides, Some(vec![2, 2]));
    assert_eq!(op.kernel_shape, Some(vec![3, 3]));
    assert_eq!(op.bias_input, Some(2));
    assert_eq!(op.x_zero_point_input, Some(3));
    assert_eq!(op.k_zero_point_input, Some(4));
    assert_eq!(op.override_output_datum_type, Some(DatumType::I32));
    assert_eq!(op.k_input, None);
}

#[test]
fn conv_output_shapes() {
    let op = Conv::new().strides(vec![2, 2]).kernel_shape(vec![3, 3]);
    assert_eq!(op.output_shape(&vec![1, 1, 7, 5], &vec![1, 1, 3, 3]), Ok(vec![1, 1, 3, 2]));
    let op = Conv::new();
    assert_eq!(op.output_shape(&vec![1, 2, 1, 1], &vec![3, 2, 1, 1]), Ok(vec![1, 3, 1, 1]));
    let op = Conv::new().nhwc().hwio().padding(PaddingSpec::SameUpper);
    assert_eq!(op.output_shape(&vec![1, 2, 2, 2], &vec![2, 2, 2, 1]), Ok(vec![1, 2, 2, 1]));
    assert_eq!(op.output_shape(&vec![1, 1, 2, 2], &vec![2, 1, 2, 1]), Ok(vec![1, 1, 2, 1]));
    assert_eq!(op.output_shape(&vec![1, 2, 1], &vec![1, 1, 1]), Ok(vec![1, 2, 1]));
    assert_eq!(op.output_shape(&vec![2, 1, 1], &vec![1, 1, 1]), Ok(vec![2, 1, 1]));
    assert_eq!(op.output_shape(&vec![1, 1, 2], &vec![1, 2, 1]), Ok(vec![1, 1, 1]));
    assert_eq!(op.output_shape(&vec![1, 1], &vec![1, 1]), Err(OpError::WrongArity(2)));
    let op = Conv::new().padding(PaddingSpec::Explicit(vec![1], vec![2])).dilations(vec![2]);
    assert_eq!(op.output_shape(&vec![1, 1, 10], &vec![4, 1, 3]), Ok(vec![1, 4, 9]));
}

#[test]
fn lengths_after_a_kernel() {
    assert_eq!(compute_len(&PaddingSpec::Valid, 0, 7, 3, 1, 2), Ok(3));
    assert_eq!(compute_len(&PaddingSpec::Valid, 0, 2, 3, 1, 1), Ok(0));
    assert_eq!(compute_len(&PaddingSpec::SameLower, 0, 7, 3, 1, 2), Ok(4));
    assert_eq!(compute_len(&PaddingSpec::Explicit(vec![1], vec![1]), 0, 7, 3, 1, 2), Ok(4));
    assert_eq!(
        compute_len(&PaddingSpec::Explicit(vec![1], vec![1]), 1, 7, 3, 1, 2),
        Err(OpError::NoSuchAxis(1))
    );
    assert_eq!(compute_len(&PaddingSpec::Valid, 0, 7, 3, 1, 0), Err(OpError::Overflow));
}

#[test]
fn avg_pool_for_a_shape() {
    let pool = AvgPool::new(
        PoolSpec {
            data_format: DataFormat::NCHW,
            kernel_shape: vec![2, 2],
            padding: PaddingSpec::Valid,
            strides: Some(vec![2, 2]),
        },
        false,
    );
    let fixed = pool.to_fixed(DatumType::I32, &vec![1, 3, 6, 5]).unwrap();
    assert_eq!(fixed.output_shape, vec![1, 3, 3, 2]);
    assert_eq!(fixed.input_shape, vec![1, 3, 6, 5]);
    assert_eq!(fixed.datum_type, DatumType::I32);
    assert!(!fixed.count_include_pad);
    assert_eq!(pool.to_fixed(DatumType::I32, &vec![1, 3, 6]).err(), Some(OpError::WrongArity(3)));
}

#[test]
fn zero_points() {
    let t = |dt, shape: Vec<usize>, data: Vec<i64>| Tensor { datum_type: dt, shape, data };
    assert_eq!(cleanup_zeropoint(&t(DatumType::U8, vec![], vec![0])), None);
    assert_eq!(
        cleanup_zeropoint(&t(DatumType::U8, vec![], vec![3])),
        Some(t(DatumType::U8, vec![], vec![3]))
    );
    assert_eq!(
        cleanup_zeropoint(&t(DatumType::I8, vec![3], vec![5, 5, 5])),
        Some(t(DatumType::I8, vec![], vec![5]))
    );
    assert_eq!(cleanup_zeropoint(&t(DatumType::I8, vec![3], vec![0, 0, 0])), None);
    assert_eq!(
        cleanup_zeropoint(&t(DatumType::I8, vec![3], vec![5, 6, 5])),
        Some(t(DatumType::I8, vec![3], vec![5, 6, 5]))
    );
    assert_eq!(
        cleanup_zeropoint(&t(DatumType::I32, vec![], vec![0])),
        Some(t(DatumType::I32, vec![], vec![0]))
    );
}

#[test]
fn tiles() {
    assert_eq!(Tile::new().output_shape(&vec![2, 3], &vec![2, 1]), Some(vec![4, 3]));
    assert_eq!(Tile.output_shape(&vec![2, 3], &vec![2]), None);
    assert_eq!(Tile.output_shape(&vec![usize::MAX], &vec![2]), None);
}

#[test]
fn stages_in_order() {
    let mut stage = Stage::Load;
    let mut seen = vec![stage];
    while let Some(next) = stage.next(false) {
        seen.push(next);
        stage = next;
    }
    assert_eq!(
        seen,
        vec![
            Stage::Load,
            Stage::Analyse,
            Stage::Incorporate,
            Stage::Type,
            Stage::Declutter,
            Stage::Optimize
        ]
    );
    assert_eq!(Stage::Declutter.next(true), Some(Stage::PulseNormalize));
    assert_eq!(Stage::PulseNormalize.next(true), Some(Stage::Pulse));
    assert_eq!(Stage::Pulse.next(true), Some(Stage::PulseToType));
    assert_eq!(Stage::PulseToType.next(true), Some(Stage::PulseDeclutter));
    assert_eq!(Stage::PulseDeclutter.next(true), Some(Stage::Optimize));
    assert_eq!(Stage::Optimize.next(true), None);
    assert_eq!(Stage::stop_at(None, false, false), Stage::Declutter);
    assert_eq!(Stage::stop_at(None, false, true), Stage::PulseDeclutter);
    assert_eq!(Stage::stop_at(None, true, true), Stage::Optimize);
    assert_eq!(Stage::stop_at(Some(Stage::Type), true, true), Stage::Type);
}

#[test]
fn a_stage_is_found_by_its_name() {
    assert_eq!(Stage::from_name("pulse-to-type"), Some(Stage::PulseToType));
    assert_eq!(Stage::from_name("load"), Some(Stage::Load));
    assert_eq!(Stage::from_name("codegen"), None);
    assert_eq!(Stage::Declutter.name(), "declutter");
    assert_eq!(Stage::from_name(Stage::Optimize.name()), Some(Stage::Optimize));
}
