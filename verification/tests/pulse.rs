use tract::datum::DatumType;
use tract::dim::TDim;
use tract::error::OpError;
use tract::facts::{PulsedFact, TypedFact};
use tract::model::{Model, ModelError, OutletId};
use tract::ops::delay::DelayState;
use tract::ops::pad::PulsePadOpState;
use tract::ops::{Delay, Downsample, Op, Pad, PadMode, PulsePad, PulsedAxisSlice, Slice};
use tract::pipeline::wire_typed;
use tract::plan::{PulsedState, SimplePlan, SimpleState};
use tract::pulse::{pulsify, wire_pulsed};
use tract::tensor::Tensor;

type PulsedModel = Model<PulsedFact, Op>;
type TypedModel = Model<TypedFact, Op>;

fn pulsed_fact(pulse: usize) -> PulsedFact {
    PulsedFact { datum_type: DatumType::U8, shape: vec![pulse], axis: 0, dim: TDim::s(), delay: 0 }
}

fn test_pulse_delay_over(pulse: usize, delay: usize, overlap: usize) {
    let mut model = PulsedModel::new();
    let fact1 = pulsed_fact(pulse);
    let source = model.add_source("source".to_string(), fact1.clone());
    wire_pulsed(
        &mut model,
        "delay".to_string(),
        Op::Delay(Delay::new(&fact1, delay, overlap).unwrap()),
        source,
    )
    .unwrap();
    model.auto_outputs();

    let plan = SimplePlan::new(&model).unwrap();
    let mut state = PulsedState::new(&model, 0).unwrap();

    for i in 0..5 {
        let input: Vec<i64> = (pulse * i..(pulse * (i + 1))).map(|a| a as u8 as i64).collect();
        let expect: Vec<i64> = (pulse * i..(pulse * (i + 1) + overlap))
            .map(|i| i.saturating_sub(delay + overlap) as u8 as i64)
            .collect();
        let output = state.run(&model, &plan, &vec![input]).unwrap();
        let skip = (delay + overlap).saturating_sub(i * pulse).min(pulse + overlap);
        assert_eq!(&output[0][skip..], &expect[skip..]);
    }
}

#[test]
fn sub_pulse() {
    test_pulse_delay_over(4, 1, 0);
}

#[test]
fn supra_pulse() {
    test_pulse_delay_over(4, 5, 0);
}

#[test]
fn sub_pulse_context() {
    test_pulse_delay_over(4, 0, 2);
}

#[test]
fn supra_pulse_context() {
    test_pulse_delay_over(4, 0, 6);
}

#[test]
fn test_two_delays() {
    let pulse = 4;
    let mut model = PulsedModel::new();
    let fact_0 = pulsed_fact(pulse);
    let source = model.add_source("source".to_string(), fact_0.clone());
    let delay_1 = wire_pulsed(
        &mut model,
        "delay-1".to_string(),
        Op::Delay(Delay::new(&fact_0, 2, 0).unwrap()),
        source,
    )
    .unwrap();
    let fact_1 = model.outlet_fact(delay_1).unwrap().clone();
    let delay_2 = wire_pulsed(
        &mut model,
        "delay-1".to_string(),
        Op::Delay(Delay::new(&fact_1, 2, 0).unwrap()),
        delay_1,
    )
    .unwrap();
    model.set_output_outlets(&vec![delay_2]).unwrap();

    let plan = SimplePlan::new(&model).unwrap();
    let mut state = PulsedState::new(&model, 0).unwrap();

    for i in 0..5 {
        let input: Vec<i64> = (pulse * i..(pulse * (i + 1))).map(|a| a as u8 as i64).collect();
        let expect: Vec<i64> =
            (pulse * i..(pulse * (i + 1))).map(|i| i.saturating_sub(4) as u8 as i64).collect();
        let skip = 4usize.saturating_sub(i * pulse).min(pulse);
        let output = state.run(&model, &plan, &vec![input]).unwrap();
        assert_eq!(&output[0][skip..], &expect[skip..]);
    }
}

#[test]
fn delay_hands_on_late() {
    let op = Delay::new(&pulsed_fact(4), 1, 0).unwrap();
    let mut state = DelayState::new(&op, 0u8).unwrap();
    assert_eq!(state.eval(&op, &vec![0, 1, 2, 3]), vec![0, 0, 1, 2]);
    assert_eq!(state.eval(&op, &vec![4, 5, 6, 7]), vec![3, 4, 5, 6]);
    assert_eq!(state.eval(&op, &vec![8, 9, 10, 11]), vec![7, 8, 9, 10]);
}

#[test]
fn delay_hands_on_the_window_of_the_stream() {
    let (p, d, o) = (3usize, 2usize, 4usize);
    let op = Delay::new(&pulsed_fact(p), d, o).unwrap();
    let mut state = DelayState::new(&op, -1i64).unwrap();
    for k in 0..6 {
        let input: Vec<i64> = (k * p..(k + 1) * p).map(|x| x as i64).collect();
        let output = state.eval(&op, &input);
        assert_eq!(output.len(), p + o);
        for j in 0..p + o {
            let at = (k * p + j) as i64 - (d + o) as i64;
            assert_eq!(output[j], if at < 0 { -1 } else { at });
        }
    }
}

#[test]
fn delay_facts() {
    let fact = pulsed_fact(4);
    let op = Delay::new(&fact, 3, 2).unwrap();
    assert_eq!(op.buffer_shape, vec![5]);
    let out = op.pulsed_output_facts(&fact).unwrap();
    assert_eq!(out.shape, vec![6]);
    assert_eq!(out.delay, 5);
    assert_eq!(out.dim, TDim::s());
    let bad = PulsedFact { axis: 3, ..pulsed_fact(4) };
    assert_eq!(Delay::new(&bad, 1, 0).err(), Some(OpError::NoSuchAxis(3)));
    assert_eq!(Delay::new(&fact, usize::MAX, 1).err(), Some(OpError::Overflow));
}

fn stream_model(op: Op) -> TypedModel {
    let mut model = TypedModel::new();
    let source =
        model.add_source("source".to_string(), TypedFact::dt_shape(DatumType::I64, vec![TDim::s()]));
    let out = wire_typed(&mut model, "op".to_string(), op, source).unwrap();
    model.set_output_outlets(&vec![out]).unwrap();
    model
}

fn pad(before: usize, after: usize, mode: PadMode) -> Op {
    Op::Pad(Pad::new(vec![(before, after)], mode))
}

fn constant(v: i64) -> PadMode {
    PadMode::Constant(Tensor::scalar(DatumType::I64, v))
}

#[test]
fn pad_goes_onto_a_stream_behind_a_delay() {
    let model = stream_model(pad(2, 0, constant(7)));
    let pulsed = pulsify(&model, 4).unwrap();
    assert_eq!(pulsed.nodes.len(), 3);
    assert_eq!(pulsed.node_op(0), &Op::Source);
    match pulsed.node_op(1) {
        Op::Delay(d) => {
            assert_eq!((d.axis, d.delay, d.overlap), (0, 2, 0));
        }
        other => panic!("{:?}", other),
    }
    assert_eq!(pulsed.node_name(1), "op.Delay");
    match pulsed.node_op(2) {
        Op::PulsePad(p) => {
            assert_eq!((p.axis, p.pulse, p.before, p.after, p.begin_input), (0, 4, 2, 0, 2));
            assert_eq!(p.end_input, TDim::s().plus(TDim::from(2)));
        }
        other => panic!("{:?}", other),
    }
    assert_eq!(pulsed.node_name(2), "op");
    assert_eq!(pulsed.node_inputs(2), &vec![OutletId::new(1, 0)]);
    assert_eq!(pulsed.output_outlets(), &vec![OutletId::new(2, 0)]);
    assert_eq!(pulsed.input_outlets(), &vec![OutletId::new(0, 0)]);
    let fact = pulsed.outlet_fact(OutletId::new(2, 0)).unwrap();
    assert_eq!(fact.delay, 0);
    assert_eq!(fact.dim, TDim::s().plus(TDim::from(2)));

    let plan = SimplePlan::new(&pulsed).unwrap();
    let mut state = PulsedState::new(&pulsed, 0).unwrap();
    assert_eq!(state.run(&pulsed, &plan, &vec![vec![1, 2, 3, 4]]).unwrap(), vec![vec![7, 7, 1, 2]]);
    assert_eq!(state.run(&pulsed, &plan, &vec![vec![5, 6, 7, 8]]).unwrap(), vec![vec![3, 4, 5, 6]]);
}

#[test]
fn pulsed_model_does_what_the_model_does() {
    let model = stream_model(pad(2, 0, constant(9)));
    let input: Vec<i64> = (1..=12).collect();
    let plan = SimplePlan::new(&model).unwrap();
    let whole = SimpleState::new().run(&model, &plan, &vec![input.clone()]).unwrap();
    assert_eq!(whole[0], vec![9, 9, 1, 2, 3, 4, 5, 6, 7, 8, 9, 10, 11, 12]);

    let pulsed = pulsify(&model, 4).unwrap();
    let plan = SimplePlan::new(&pulsed).unwrap();
    let mut state = PulsedState::new(&pulsed, 0).unwrap();
    let mut stream: Vec<i64> = vec![];
    for chunk in input.chunks(4) {
        stream.extend(state.run(&pulsed, &plan, &vec![chunk.to_vec()]).unwrap().remove(0));
    }
    let delay = pulsed.outlet_fact(pulsed.output_outlets()[0]).unwrap().delay;
    assert_eq!(&stream[delay..], &whole[0][..stream.len() - delay]);
}

#[test]
fn pad_after_the_stream_once_its_length_is_known() {
    let op = PulsePad {
        axis: 0,
        pulse: 4,
        before: 0,
        after: 2,
        begin_input: 0,
        end_input: TDim::s(),
        mode: PadMode::Edge,
    };
    let mut state = PulsePadOpState::new();
    let end = op.end_of_input(Some(6));
    assert_eq!(end, 6);
    assert_eq!(op.end_of_input(None), usize::MAX);
    assert_eq!(state.eval(&op, end, &vec![1, 2, 3, 4]), vec![1, 2, 3, 4]);
    assert_eq!(state.eval(&op, end, &vec![5, 6, 0, 0]), vec![5, 6, 6, 6]);
    assert_eq!(state.eval(&op, end, &vec![0, 0, 0, 0]), vec![0, 0, 0, 0]);
    assert_eq!(state.current_pos, 12);
    let fact = op.pulsed_output_facts(&pulsed_fact(4)).unwrap();
    assert_eq!(fact.dim, TDim::s().plus(TDim::from(2)));
}

#[test]
fn pad_with_the_edge_value_waits_for_a_whole_pulse() {
    let model = stream_model(pad(1, 0, PadMode::Edge));
    let pulsed = pulsify(&model, 4).unwrap();
    match pulsed.node_op(1) {
        Op::Delay(d) => assert_eq!(d.delay, 1),
        other => panic!("{:?}", other),
    }
    let plan = SimplePlan::new(&pulsed).unwrap();
    let mut state = PulsedState::new(&pulsed, 0).unwrap();
    assert_eq!(state.run(&pulsed, &plan, &vec![vec![5, 6, 7, 8]]).unwrap(), vec![vec![5, 5, 6, 7]]);
}

#[test]
fn what_cannot_stream_is_refused() {
    let model = stream_model(pad(1, 0, PadMode::Reflect));
    assert_eq!(pulsify(&model, 4).err(), Some(ModelError::Op(OpError::PadReflect)));
    let model = stream_model(pad(4, 0, PadMode::Edge));
    assert_eq!(
        pulsify(&model, 4).err(),
        Some(ModelError::Op(OpError::PadEdgePulse { pulse: 4, padding: 4 }))
    );
    let model = stream_model(Op::Downsample(Downsample::new(0, 3, 0)));
    assert_eq!(
        pulsify(&model, 4).err(),
        Some(ModelError::Op(OpError::DownsamplePulse { pulse: 4, stride: 3 }))
    );
    let model = stream_model(Op::Concat(0));
    assert_eq!(pulsify(&model, 4).err(), Some(ModelError::Op(OpError::NotPulsable)));
    let mut model = TypedModel::new();
    let source = model.add_source(
        "source".to_string(),
        TypedFact::dt_shape(DatumType::I64, vec![TDim::s(), TDim::from(3)]),
    );
    let out = wire_typed(
        &mut model,
        "pad".to_string(),
        Op::Pad(Pad::new(vec![(0, 0), (1, 1)], constant(0))),
        source,
    )
    .unwrap();
    model.set_output_outlets(&vec![out]).unwrap();
    assert_eq!(pulsify(&model, 4).err(), Some(ModelError::Op(OpError::PadOffStream(1))));
}

#[test]
fn a_source_streams_along_its_one_streaming_axis() {
    let fact = TypedFact::dt_shape(DatumType::I32, vec![TDim::from(2), TDim::s().times(2), TDim::from(3)]);
    let pulsed = PulsedFact::from_typed(&fact, 8).unwrap();
    assert_eq!(pulsed.shape, vec![2, 8, 3]);
    assert_eq!(pulsed.axis, 1);
    assert_eq!(pulsed.delay, 0);
    assert_eq!(pulsed.dim, TDim::s().times(2));
    let fixed = TypedFact::dt_shape(DatumType::I32, vec![TDim::from(2)]);
    assert_eq!(PulsedFact::from_typed(&fixed, 8).err(), Some(OpError::NoStreamAxis));
    let twice = TypedFact::dt_shape(DatumType::I32, vec![TDim::s(), TDim::s()]);
    assert_eq!(PulsedFact::from_typed(&twice, 8).err(), Some(OpError::NoStreamAxis));
    let below = TypedFact::dt_shape(DatumType::I32, vec![TDim::s(), TDim::from(-1)]);
    assert_eq!(PulsedFact::from_typed(&below, 8).err(), Some(OpError::Overflow));
}

#[test]
fn a_slice_of_the_stream_is_a_delay() {
    let model = stream_model(Op::Slice(Slice::new(0, TDim::from(3), TDim::s())));
    let pulsed = pulsify(&model, 4).unwrap();
    assert_eq!(
        pulsed.node_op(1),
        &Op::PulsedAxisSlice(PulsedAxisSlice::new(0, 3, TDim::s().minus(TDim::from(3))))
    );
    let fact = pulsed.outlet_fact(OutletId::new(1, 0)).unwrap();
    assert_eq!(fact.delay, 3);
    assert_eq!(fact.dim, TDim::s().plus(TDim::from(-3)));
    assert_eq!(fact.shape, vec![4]);
}

#[test]
fn a_downsampling_streams_on_a_multiple_of_its_stride() {
    let model = stream_model(Op::Downsample(Downsample::new(0, 2, 0)));
    let pulsed = pulsify(&model, 4).unwrap();
    assert_eq!(pulsed.node_op(1), &Op::Downsample(Downsample::new(0, 2, 0)));
    let fact = pulsed.outlet_fact(OutletId::new(1, 0)).unwrap();
    assert_eq!(fact.shape, vec![2]);
    assert_eq!(fact.dim, TDim::s().div_ceil(2));
    let plan = SimplePlan::new(&pulsed).unwrap();
    let mut state = PulsedState::new(&pulsed, 0).unwrap();
    assert_eq!(state.run(&pulsed, &plan, &vec![vec![1, 2, 3, 4]]).unwrap(), vec![vec![1, 3]]);
}
