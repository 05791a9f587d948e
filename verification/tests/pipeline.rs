use tract::datum::DatumType;
use tract::dim::TDim;
use tract::facts::{InferenceFact, TypedFact};
use tract::model::{InletId, Model, ModelError, OutletId};
use tract::ops::{Downsample, Op, Pad, PadMode, Slice};
use tract::pipeline::{lower, Lowered, Stage};
use tract::tensor::Tensor;

type Raw = Model<InferenceFact, Op>;

/// A source of a stream and the operators behind it, each with what it
/// says of its output.
fn chain(ops: Vec<Op>) -> Raw {
    let mut model = Raw::new();
    let mut known = TypedFact::dt_shape(DatumType::I64, vec![TDim::s()]);
    let mut wire =
        model.add_source("input".to_string(), InferenceFact::dt_shape(DatumType::I64, vec![TDim::s()]));
    for (ix, op) in ops.into_iter().enumerate() {
        known = op.unary_output_fact(&known).unwrap();
        let fact = InferenceFact::dt_shape(known.datum_type, known.shape.clone());
        wire = model.wire(format!("op{}", ix), op, vec![fact], &vec![wire]).unwrap()[0];
    }
    model.set_output_outlets(&vec![wire]).unwrap();
    model
}

fn padding() -> Op {
    Op::Pad(Pad::new(vec![(2, 0)], PadMode::Constant(Tensor::scalar(DatumType::I64, 0))))
}

fn whole_slice() -> Op {
    Op::Slice(Slice::new(0, TDim::from(0), TDim::s()))
}

#[test]
fn a_model_stays_as_loaded_before_it_is_typed() {
    match lower(chain(vec![padding()]), Stage::Analyse, Some(4), 10) {
        Ok((Stage::Analyse, Lowered::Inference(model))) => assert_eq!(model.nodes.len(), 2),
        _ => panic!("the model is kept as it was loaded"),
    }
}

#[test]
fn a_model_is_typed_then_decluttered() {
    match lower(chain(vec![whole_slice(), padding()]), Stage::Type, None, 10) {
        Ok((Stage::Type, Lowered::Typed(model))) => {
            assert_eq!(model.eval_order().unwrap().len(), 3)
        }
        _ => panic!("the model is typed"),
    }
    match lower(chain(vec![whole_slice(), padding()]), Stage::Optimize, None, 10) {
        Ok((Stage::Declutter, Lowered::Typed(model))) => {
            assert_eq!(model.eval_order().unwrap().len(), 2)
        }
        _ => panic!("the model is decluttered"),
    }
}

#[test]
fn a_model_that_is_to_stream_is_made_to_stream() {
    match lower(chain(vec![padding()]), Stage::Pulse, Some(4), 10) {
        Ok((Stage::Pulse, Lowered::Pulsed(model))) => {
            let out = model.output_outlets()[0];
            assert_eq!(model.outlet_fact(out).unwrap().shape, vec![4]);
            assert_eq!(model.eval_order().unwrap().len(), 3);
        }
        _ => panic!("the model streams"),
    }
    match lower(chain(vec![padding()]), Stage::PulseNormalize, Some(4), 10) {
        Ok((Stage::PulseNormalize, Lowered::Typed(_))) => {}
        _ => panic!("the model is not yet streaming"),
    }
}

#[test]
fn a_streaming_model_is_typed_again_and_decluttered() {
    let sliced = Op::Slice(Slice::new(0, TDim::from(1), TDim::s()));
    match lower(chain(vec![padding(), sliced]), Stage::PulseToType, Some(4), 10) {
        Ok((Stage::PulseToType, Lowered::Typed(model))) => {
            let order = model.eval_order().unwrap();
            assert_eq!(order.len(), 4);
            assert_eq!(model.node_op(order[3]), &Op::Identity);
            assert_eq!(model.node_name(order[3]), "op1");
            let out = model.output_outlets()[0];
            assert_eq!(model.outlet_fact(out).unwrap().shape, vec![TDim::from(4)]);
        }
        _ => panic!("the streaming model is typed"),
    }
    match lower(chain(vec![padding()]), Stage::Optimize, Some(4), 10) {
        Ok((Stage::PulseDeclutter, Lowered::Typed(model))) => {
            assert_eq!(model.eval_order().unwrap().len(), 3)
        }
        _ => panic!("the streaming model is decluttered"),
    }
}

#[test]
fn the_first_stage_that_fails_ends_the_lowering() {
    let refused = lower(chain(vec![Op::Downsample(Downsample::new(0, 3, 0))]), Stage::Pulse, Some(4), 10);
    assert!(matches!(refused, Err(ModelError::Op(_))));
    let unsettled = lower(chain(vec![whole_slice(), whole_slice()]), Stage::Declutter, None, 1);
    assert!(matches!(unsettled, Err(ModelError::Unsettled)));
    let mut circle = Raw::new();
    let a = circle.add_node("a".to_string(), Op::Identity, vec![InferenceFact::any()]);
    let b = circle.add_node("b".to_string(), Op::Identity, vec![InferenceFact::any()]);
    circle.add_edge(OutletId::new(a, 0), InletId::new(b, 0)).unwrap();
    circle.add_edge(OutletId::new(b, 0), InletId::new(a, 0)).unwrap();
    circle.set_output_outlets(&vec![OutletId::new(b, 0)]).unwrap();
    assert!(matches!(lower(circle, Stage::Type, None, 10), Err(ModelError::Cycle)));
}
