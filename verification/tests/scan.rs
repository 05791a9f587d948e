use tract::datum::DatumType;
use tract::dim::TDim;
use tract::error::OpError;
use tract::facts::TypedFact;
use tract::model::{Model, ModelError};
use tract::ops::scan::lir::{assign_output, slice_input};
use tract::ops::{
    InputMapping, LirScan, LirScanOpParams, Op, OutputMapping, Slice, StateInitializer,
};
use tract::pipeline::wire_typed;
use tract::plan::SimplePlan;
use tract::tensor::Tensor;

type TypedModel = Model<TypedFact, Op>;

fn fact(len: i32) -> TypedFact {
    TypedFact::dt_shape(DatumType::I64, vec![TDim::from(len)])
}

fn gathered(slot: usize) -> OutputMapping<usize, TDim> {
    OutputMapping {
        full_slot: Some(slot),
        axis: 0,
        chunk: 1,
        full_dim_hint: None,
        last_value_slot: None,
        state: false,
    }
}

/// A scan whose body hands its chunk on.
fn copying(chunk: usize, backward: bool, skip: usize) -> LirScan {
    let mut body = TypedModel::new();
    let x = body.add_source("x".to_string(), fact(chunk as i32));
    let y = wire_typed(&mut body, "y".to_string(), Op::Identity, x).unwrap();
    body.set_output_outlets(&vec![y]).unwrap();
    let plan = SimplePlan::new(&body).unwrap();
    LirScan(LirScanOpParams {
        skip,
        backward,
        body,
        plan,
        input_mapping: vec![InputMapping::Scan { slot: 0, axis: 0, chunk }],
        output_mapping: vec![gathered(0)],
    })
}

/// A scan whose body gives its state followed by its chunk, and keeps the
/// chunk as its state.
fn remembering(start: i64) -> LirScan {
    let mut body = TypedModel::new();
    let s = body.add_source("s".to_string(), fact(1));
    let x = body.add_source("x".to_string(), fact(1));
    let both = body.wire("both".to_string(), Op::Concat(0), vec![fact(2)], &vec![s, x]).unwrap()[0];
    let kept = wire_typed(
        &mut body,
        "kept".to_string(),
        Op::Slice(Slice::new(0, TDim::from(1), TDim::from(2))),
        both,
    )
    .unwrap();
    body.set_output_outlets(&vec![both, kept]).unwrap();
    let plan = SimplePlan::new(&body).unwrap();
    let first = Tensor { datum_type: DatumType::I64, shape: vec![1], data: vec![start] };
    LirScan(LirScanOpParams {
        skip: 0,
        backward: false,
        body,
        plan,
        input_mapping: vec![
            InputMapping::State { initializer: StateInitializer::Value(first) },
            InputMapping::Scan { slot: 0, axis: 0, chunk: 1 },
        ],
        output_mapping: vec![
            gathered(0),
            OutputMapping {
                full_slot: None,
                axis: 0,
                chunk: 1,
                full_dim_hint: None,
                last_value_slot: Some(1),
                state: true,
            },
        ],
    })
}

#[test]
fn a_chunk_is_filled_up_with_zeros() {
    let input = vec![1, 2, 3, 4, 5];
    assert_eq!(slice_input(&input, 0, 2, false), vec![1, 2]);
    assert_eq!(slice_input(&input, 2, 2, false), vec![5, 0]);
    assert_eq!(slice_input(&input, 3, 2, false), vec![0, 0]);
    assert_eq!(slice_input(&input, 0, 2, true), vec![4, 5]);
    assert_eq!(slice_input(&input, 2, 2, true), vec![0, 1]);
}

#[test]
fn a_value_goes_into_its_place_of_the_output() {
    let mut out = vec![0; 5];
    assign_output(&mut out, &vec![1, 2], 1, false).unwrap();
    assert_eq!(out, vec![0, 0, 1, 2, 0]);
    assign_output(&mut out, &vec![8, 9], 2, false).unwrap();
    assert_eq!(out, vec![0, 0, 1, 2, 8]);
    assert_eq!(assign_output(&mut out, &vec![8, 9], 3, false), Err(OpError::Overflow));
    assert_eq!(out, vec![0, 0, 1, 2, 8]);
    let mut back = vec![0; 5];
    assign_output(&mut back, &vec![1, 2], 1, true).unwrap();
    assert_eq!(back, vec![0, 0, 1, 2, 0]);
    assert_eq!(assign_output(&mut back, &vec![1, 2], 3, true), Err(OpError::Overflow));
}

#[test]
fn a_scan_gathers_what_its_body_gives() {
    let op = copying(2, false, 0);
    let mut state = op.state();
    let out = state.eval(&op.0, &vec![vec![1, 2, 3, 4, 5]]).unwrap();
    assert_eq!(out, vec![vec![1, 2, 3, 4, 5, 0]]);
    assert_eq!(state.position, 3);
}

#[test]
fn a_scan_backward_takes_its_input_from_the_end() {
    let op = copying(2, true, 0);
    let mut state = op.state();
    let out = state.eval(&op.0, &vec![vec![1, 2, 3, 4, 5]]).unwrap();
    assert_eq!(out, vec![vec![0, 0, 1, 2, 3, 4]]);
}

#[test]
fn a_scan_passes_over_its_first_turns() {
    let op = copying(2, false, 1);
    let mut state = op.state();
    let out = state.eval(&op.0, &vec![vec![1, 2, 3, 4, 5]]).unwrap();
    assert_eq!(out, vec![vec![0, 0, 3, 4, 5, 0]]);
    assert_eq!(state.position, 3);
}

#[test]
fn a_scan_hands_its_state_from_turn_to_turn() {
    let op = remembering(7);
    let mut state = op.state();
    let out = state.eval(&op.0, &vec![vec![1, 2, 3]]).unwrap();
    assert_eq!(out, vec![vec![7, 1, 1, 2, 2, 3], vec![3]]);
    assert_eq!(state.hidden_state, vec![vec![3]]);
    let out = state.eval(&op.0, &vec![vec![4, 5]]).unwrap();
    assert_eq!(out, vec![vec![3, 4, 4, 5], vec![5]]);
    assert_eq!(state.position, 5);
}

#[test]
fn a_scan_needs_a_scanned_input() {
    let mut op = copying(2, false, 0);
    op.0.input_mapping = vec![InputMapping::Full { slot: 0 }];
    let mut state = op.state();
    assert_eq!(state.eval(&op.0, &vec![vec![1, 2]]), Err(ModelError::Op(OpError::NoEval)));
    let op = copying(2, false, 0);
    assert_eq!(op.state().eval(&op.0, &vec![]), Err(ModelError::Op(OpError::WrongArity(0))));
    let op = copying(0, false, 0);
    assert_eq!(op.state().eval(&op.0, &vec![vec![1]]), Err(ModelError::Op(OpError::Overflow)));
}

#[test]
fn a_scan_takes_the_length_it_is_told() {
    let mut op = copying(2, false, 0);
    op.0.output_mapping[0].full_dim_hint = Some(TDim::from(5));
    let out = op.state().eval(&op.0, &vec![vec![1, 2, 3, 4, 5]]).unwrap();
    assert_eq!(out, vec![vec![1, 2, 3, 4, 5]]);
}

#[test]
fn a_scan_says_what_it_gathers_over_its_turns() {
    let op = remembering(7);
    let input = TypedFact::dt_shape(DatumType::I64, vec![TDim::s()]);
    let facts = op.params().output_facts(&vec![input]).unwrap();
    assert_eq!(facts.len(), 2);
    assert_eq!(facts[0].datum_type, DatumType::I64);
    assert_eq!(facts[0].shape, vec![TDim::s().times(2)]);
    assert_eq!(facts[1].shape, vec![TDim::from(1)]);
    let op = copying(2, false, 0);
    let input = TypedFact::dt_shape(DatumType::I64, vec![TDim::from(5)]);
    let facts = op.params().output_facts(&vec![input]).unwrap();
    assert_eq!(facts[0].shape, vec![TDim::from(6)]);
    assert_eq!(op.params().output_facts(&vec![]), Err(OpError::WrongArity(0)));
    assert_eq!(op.name(), "Scan");
}
