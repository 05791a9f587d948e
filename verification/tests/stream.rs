use tract::datum::DatumType;
use tract::dim::ops::cast_all;
use tract::dim::{DimError, TDim};
use tract::error::OpError;
use tract::facts::{PulsedFact, TypedFact};
use tract::model::{InletId, Model, ModelError, OutletId};
use tract::ops::cnn::compute_len;
use tract::ops::{Downsample, Op, Pad, PadMode, PaddingSpec, Slice};
use tract::pipeline::wire_typed;
use tract::plan::{PulsedState, SimplePlan, SimpleState};
use tract::pulse::pulsify;
use tract::tensor::Tensor;

type TypedModel = Model<TypedFact, Op>;

fn over_a_stream(op: Op) -> TypedModel {
    let mut model = TypedModel::new();
    let source =
        model.add_source("source".to_string(), TypedFact::dt_shape(DatumType::I64, vec![TDim::s()]));
    let out = wire_typed(&mut model, "op".to_string(), op, source).unwrap();
    model.set_output_outlets(&vec![out]).unwrap();
    model
}

/// What the model gives of the whole input, and what its streaming form
/// gives of the input in pulses, with the delay that is declared for it.
fn both_ways(
    model: &TypedModel,
    input: &Vec<i64>,
    pulse: usize,
    known: bool,
) -> (Vec<i64>, Vec<i64>, PulsedFact) {
    let plan = SimplePlan::new(model).unwrap();
    let whole = SimpleState::new().run(model, &plan, &vec![input.clone()]).unwrap().remove(0);
    let pulsed = pulsify(model, pulse).unwrap();
    let plan = SimplePlan::new(&pulsed).unwrap();
    let mut state = PulsedState::new(&pulsed, 0).unwrap();
    if known {
        state.known_stream_len = Some(input.len());
    }
    let mut stream: Vec<i64> = vec![];
    for chunk in input.chunks(pulse) {
        stream.extend(state.run(&pulsed, &plan, &vec![chunk.to_vec()]).unwrap().remove(0));
    }
    let fact = pulsed.outlet_fact(pulsed.output_outlets()[0]).unwrap().clone();
    (whole, stream, fact)
}

#[test]
fn a_downsampled_stream_is_the_downsampled_whole() {
    let model = over_a_stream(Op::Downsample(Downsample::new(0, 2, 1)));
    let input: Vec<i64> = (10..22).collect();
    let (whole, stream, fact) = both_ways(&model, &input, 4, false);
    assert_eq!(whole, vec![11, 13, 15, 17, 19, 21]);
    assert_eq!(fact.delay, 0);
    assert_eq!(stream, whole);
}

#[test]
fn a_sliced_stream_holds_the_slice_later() {
    let model = over_a_stream(Op::Slice(Slice::new(0, TDim::from(3), TDim::from(9))));
    let input: Vec<i64> = (10..22).collect();
    let (whole, stream, fact) = both_ways(&model, &input, 4, false);
    assert_eq!(whole, vec![13, 14, 15, 16, 17, 18]);
    assert_eq!(fact.delay, 3);
    assert_eq!(&stream[3..9], &whole[..]);
}

#[test]
fn a_stream_padded_with_the_edge_value_is_the_padded_whole() {
    let model = over_a_stream(Op::Pad(Pad::new(vec![(2, 3)], PadMode::Edge)));
    let input: Vec<i64> = (1..=8).collect();
    let (whole, stream, fact) = both_ways(&model, &input, 4, true);
    assert_eq!(whole, vec![1, 1, 1, 2, 3, 4, 5, 6, 7, 8, 8, 8, 8]);
    let shown = stream.len() - fact.delay;
    assert!(shown >= 6);
    assert_eq!(&stream[fact.delay..], &whole[..shown]);
}

#[test]
fn a_stream_padded_with_a_constant_is_the_padded_whole() {
    let nine = PadMode::Constant(Tensor::scalar(DatumType::I64, 9));
    let model = over_a_stream(Op::Pad(Pad::new(vec![(1, 2)], nine)));
    let input: Vec<i64> = (1..=6).collect();
    let (whole, stream, fact) = both_ways(&model, &input, 3, true);
    assert_eq!(whole, vec![9, 1, 2, 3, 4, 5, 6, 9, 9]);
    let shown = stream.len() - fact.delay;
    assert_eq!(&stream[fact.delay..], &whole[..shown]);
}

#[test]
fn a_padding_too_big_to_count_does_not_stream() {
    let nine = PadMode::Constant(Tensor::scalar(DatumType::I64, 9));
    let model = over_a_stream(Op::Pad(Pad::new(vec![(1, i32::MAX as usize)], nine)));
    assert_eq!(pulsify(&model, 4).err(), Some(ModelError::Op(OpError::Overflow)));
}

#[test]
fn outputs_that_nothing_reads_are_declared_in_order() {
    let mut model = TypedModel::new();
    let fact = || TypedFact::dt_shape(DatumType::I64, vec![TDim::from(1)]);
    let two = model.add_node("two".to_string(), Op::Identity, vec![fact(), fact()]);
    let a = model.add_source("a".to_string(), fact());
    let b = model.add_source("b".to_string(), fact());
    model.add_edge(a, InletId::new(two, 0)).unwrap();
    model.auto_outputs();
    assert_eq!(
        model.output_outlets(),
        &vec![OutletId::new(two, 0), OutletId::new(two, 1), b]
    );
}

#[test]
fn a_circle_that_no_output_depends_on_does_no_harm() {
    let mut model = TypedModel::new();
    let fact = || TypedFact::dt_shape(DatumType::I64, vec![TDim::from(1)]);
    let a = model.add_node("a".to_string(), Op::Identity, vec![fact()]);
    let b = model.add_node("b".to_string(), Op::Identity, vec![fact()]);
    model.add_edge(OutletId::new(a, 0), InletId::new(b, 0)).unwrap();
    model.add_edge(OutletId::new(b, 0), InletId::new(a, 0)).unwrap();
    let x = model.add_source("x".to_string(), fact());
    model.set_output_outlets(&vec![x]).unwrap();
    assert_eq!(model.eval_order(), Ok(vec![x.node]));
}

#[test]
fn the_first_datum_that_is_no_number_stops_the_cast() {
    let dims = vec![TDim::from(1), TDim::s(), TDim::from(3)];
    let r: Result<Vec<i32>, DimError> = cast_all(&dims);
    assert_eq!(r, Err(DimError::Unresolved('S')));
}

#[test]
fn an_axis_without_its_padding_has_no_length() {
    let spec = PaddingSpec::Explicit(vec![1], vec![1]);
    assert_eq!(compute_len(&spec, 1, 7, 3, 1, 2), Err(OpError::NoSuchAxis(1)));
    assert_eq!(compute_len(&PaddingSpec::Valid, 0, 7, 3, 1, 0), Err(OpError::Overflow));
    assert_eq!(compute_len(&PaddingSpec::Valid, 0, 7, 3, usize::MAX, 1), Err(OpError::Overflow));
}
