use tract::datum::DatumType;
use tract::dim::TDim;
use tract::facts::TypedFact;
use tract::model::{InletId, Model, ModelError, OutletId};
use tract::ops::declutter::{declutter_node, pull_downsample_over_slice};
use tract::ops::{Downsample, Op, Pad, PadMode, Slice};
use tract::pipeline::{declutter, wire_typed};
use tract::plan::{SimplePlan, SimpleState};
use tract::tensor::Tensor;

type TypedModel = Model<TypedFact, Op>;

fn slice(axis: usize, start: usize, end: usize) -> Op {
    Op::Slice(Slice::new(axis, TDim::from(start as i32), TDim::from(end as i32)))
}

fn is_downsample(op: &Op) -> bool {
    matches!(op, Op::Downsample(_))
}

fn crop_then_down(len: usize, left: usize, right: usize, stride: usize, modulo: usize) {
    let mut model = {
        let mut model = TypedModel::new();
        let input = model.add_source(
            "input".to_string(),
            TypedFact::dt_shape(DatumType::I32, vec![TDim::from(len as i32)]),
        );
        let crop = wire_typed(&mut model, "crop".to_string(), slice(0, left, len - right), input)
            .unwrap();
        let down = wire_typed(
            &mut model,
            "down".to_string(),
            Op::Downsample(Downsample::new(0, stride, modulo)),
            crop,
        )
        .unwrap();
        model.set_output_outlets(&vec![down]).unwrap();
        model
    };
    assert!(is_downsample(model.node_op(model.output_outlets()[0].node)));
    let input: Vec<i64> = (0i64..len as i64).collect();
    let plan = SimplePlan::new(&model).unwrap();
    let expected = SimpleState::new().run(&model, &plan, &vec![input.clone()]).unwrap();

    assert_eq!(declutter(&mut model, 100), Ok(true));
    let order = model.eval_order().unwrap();
    assert!(
        is_downsample(model.node_op(order[1]))
            || !order.iter().any(|n| is_downsample(model.node_op(*n)))
    );
    let plan = SimplePlan::new(&model).unwrap();
    let found = SimpleState::new().run(&model, &plan, &vec![input]).unwrap();
    assert_eq!(found, expected);
}

#[test]
fn crop_then_down_1() {
    crop_then_down(1, 0, 0, 2, 0)
}

#[test]
fn crop_then_down_2() {
    crop_then_down(2, 0, 1, 2, 0)
}

#[test]
fn crop_then_down_3() {
    crop_then_down(0, 0, 0, 2, 1)
}

#[test]
fn crop_then_down_4() {
    crop_then_down(1, 0, 1, 2, 1)
}

#[test]
fn crop_then_down_5() {
    crop_then_down(16, 0, 1, 2, 1)
}

#[test]
fn crop_then_down_more() {
    for cropped in 1usize..5 {
        for stride in 1usize..5 {
            for left in 0..=cropped {
                for modulo in 0..stride {
                    crop_then_down(cropped + 15, left, cropped - left, stride, modulo);
                }
            }
        }
    }
}

#[test]
fn a_slice_of_everything_is_shunted() {
    let mut model = TypedModel::new();
    let input = model.add_source(
        "input".to_string(),
        TypedFact::dt_shape(DatumType::I32, vec![TDim::from(3), TDim::from(5)]),
    );
    let sliced = wire_typed(&mut model, "slice".to_string(), slice(1, 0, 5), input).unwrap();
    let after = wire_typed(&mut model, "after".to_string(), Op::Identity, sliced).unwrap();
    model.set_output_outlets(&vec![after]).unwrap();
    let patch = declutter_node(&model, 1).unwrap().unwrap();
    assert_eq!(patch.shunt_outlet_by.get(sliced), Some(OutletId::new(0, 0)));
    assert_eq!(patch.incoming.get(OutletId::new(0, 0)), Some(input));
    assert_eq!(patch.obliterate, vec![1]);
    patch.apply(&mut model).unwrap();
    assert_eq!(model.node_inputs(after.node), &vec![input]);
    assert_eq!(model.node_op(1), &Op::Dummy);
    assert_eq!(model.eval_order(), Ok(vec![0, 2]));
    assert!(declutter_node(&model, 1).unwrap().is_none());
    assert!(declutter_node(&model, 2).unwrap().is_none());
}

#[test]
fn a_slice_of_a_part_stays() {
    let mut model = TypedModel::new();
    let input = model.add_source(
        "input".to_string(),
        TypedFact::dt_shape(DatumType::I32, vec![TDim::from(3), TDim::from(5)]),
    );
    let sliced = wire_typed(&mut model, "slice".to_string(), slice(1, 0, 4), input).unwrap();
    model.set_output_outlets(&vec![sliced]).unwrap();
    assert!(declutter_node(&model, 1).unwrap().is_none());
    assert!(declutter_node(&model, 0).unwrap().is_none());
    assert_eq!(declutter(&mut model, 10), Ok(true));
    assert_eq!(model.nodes.len(), 2);
}

#[test]
fn a_downsampling_goes_before_a_slice() {
    let mut model = TypedModel::new();
    let input = model
        .add_source("input".to_string(), TypedFact::dt_shape(DatumType::I32, vec![TDim::from(24)]));
    let crop = wire_typed(&mut model, "crop".to_string(), slice(0, 4, 20), input).unwrap();
    let down = wire_typed(
        &mut model,
        "down".to_string(),
        Op::Downsample(Downsample::new(0, 2, 0)),
        crop,
    )
    .unwrap();
    model.set_output_outlets(&vec![down]).unwrap();
    let patch = declutter_node(&model, down.node).unwrap().unwrap();
    assert_eq!(patch.model.node_op(1), &Op::Downsample(Downsample::new(0, 2, 0)));
    assert_eq!(patch.model.node_op(2), &slice(0, 2, 10));
    assert_eq!(patch.model.node_name(1), "down");
    assert_eq!(patch.model.node_name(2), "crop");
    assert_eq!(patch.model.node_inputs(2), &vec![OutletId::new(1, 0)]);
    patch.apply(&mut model).unwrap();
    let order = model.eval_order().unwrap();
    assert_eq!(order.len(), 3);
    assert_eq!(model.node_op(order[1]), &Op::Downsample(Downsample::new(0, 2, 0)));
    assert_eq!(model.node_op(order[2]), &slice(0, 2, 10));
}

#[test]
fn a_downsampling_takes_the_offset_of_the_slice() {
    let mut model = TypedModel::new();
    let input = model
        .add_source("input".to_string(), TypedFact::dt_shape(DatumType::I32, vec![TDim::from(24)]));
    let crop = wire_typed(&mut model, "crop".to_string(), slice(0, 5, 20), input).unwrap();
    let op = Downsample::new(0, 3, 1);
    let down = wire_typed(&mut model, "down".to_string(), Op::Downsample(op), crop).unwrap();
    model.set_output_outlets(&vec![down]).unwrap();
    let crop_op = Slice::new(0, TDim::from(5), TDim::from(20));
    let patch =
        pull_downsample_over_slice(&model, crop.node, &crop_op, down.node, &op).unwrap().unwrap();
    assert_eq!(patch.model.node_op(1), &Op::Downsample(Downsample::new(0, 3, 0)));
    assert_eq!(patch.model.node_op(2), &slice(0, 2, 7));
    let plan = Downsample::new(0, 3, 1).commute_with_slice(5, 5).unwrap();
    assert_eq!((plan.down, plan.start, plan.end), (Downsample::new(0, 3, 0), 2, 7));
}

#[test]
fn a_downsampling_stays_behind_a_slice_of_another_axis() {
    let mut model = TypedModel::new();
    let input = model.add_source(
        "input".to_string(),
        TypedFact::dt_shape(DatumType::I32, vec![TDim::from(8), TDim::from(10)]),
    );
    let crop = wire_typed(&mut model, "crop".to_string(), slice(1, 1, 5), input).unwrap();
    let op = Downsample::new(0, 2, 0);
    let down = wire_typed(&mut model, "down".to_string(), Op::Downsample(op), crop).unwrap();
    model.set_output_outlets(&vec![down]).unwrap();
    let crop_op = Slice::new(1, TDim::from(1), TDim::from(5));
    assert!(matches!(
        pull_downsample_over_slice(&model, crop.node, &crop_op, down.node, &op),
        Ok(None)
    ));
    assert!(matches!(declutter_node(&model, down.node), Ok(None)));
}

#[test]
fn declutter_twice_is_declutter_once() {
    let mut model = TypedModel::new();
    let input = model
        .add_source("input".to_string(), TypedFact::dt_shape(DatumType::I32, vec![TDim::from(24)]));
    let pad = wire_typed(
        &mut model,
        "pad".to_string(),
        Op::Pad(Pad::new(vec![(0, 0)], PadMode::Constant(Tensor::scalar(DatumType::I32, 0)))),
        input,
    )
    .unwrap();
    let crop = wire_typed(&mut model, "crop".to_string(), slice(0, 4, 20), pad).unwrap();
    let down = wire_typed(
        &mut model,
        "down".to_string(),
        Op::Downsample(Downsample::new(0, 1, 0)),
        crop,
    )
    .unwrap();
    model.set_output_outlets(&vec![down]).unwrap();
    assert_eq!(declutter(&mut model, 100), Ok(true));
    let nodes = model.nodes.len();
    let order = model.eval_order().unwrap();
    assert_eq!(order.len(), 2);
    assert_eq!(model.node_op(order[1]), &slice(0, 4, 20));
    assert_eq!(declutter(&mut model, 100), Ok(true));
    assert_eq!(model.nodes.len(), nodes);
    assert_eq!(model.eval_order().unwrap(), order);
    assert_eq!(model.input_outlets(), &vec![input]);
    assert_eq!(model.output_outlets().len(), 1);
}

#[test]
fn declutter_gives_up_when_its_budget_is_spent() {
    let mut model = TypedModel::new();
    let input = model
        .add_source("input".to_string(), TypedFact::dt_shape(DatumType::I32, vec![TDim::from(24)]));
    let a = wire_typed(&mut model, "a".to_string(), slice(0, 0, 24), input).unwrap();
    let b = wire_typed(&mut model, "b".to_string(), slice(0, 0, 24), a).unwrap();
    model.set_output_outlets(&vec![b]).unwrap();
    assert_eq!(declutter(&mut model, 1), Ok(false));
    assert_eq!(declutter(&mut model, 1), Ok(true));
    assert_eq!(model.eval_order(), Ok(vec![0]));
    assert_eq!(model.output_outlets(), &vec![input]);
}

#[test]
fn declutter_stops_at_a_cycle() {
    let mut model = TypedModel::new();
    let fact = TypedFact::dt_shape(DatumType::I32, vec![TDim::from(4)]);
    let a = model.add_node("a".to_string(), Op::Identity, vec![fact.clone()]);
    let b = model.add_node("b".to_string(), Op::Identity, vec![fact]);
    model.add_edge(OutletId::new(a, 0), InletId::new(b, 0)).unwrap();
    model.add_edge(OutletId::new(b, 0), InletId::new(a, 0)).unwrap();
    model.set_output_outlets(&vec![OutletId::new(b, 0)]).unwrap();
    assert_eq!(declutter(&mut model, 10), Err(ModelError::Cycle));
}

#[test]
fn a_slice_within_one_input_of_a_concatenation_slices_that_input() {
    let mut model = TypedModel::new();
    let fact = |n: i32| TypedFact::dt_shape(DatumType::I32, vec![TDim::from(n)]);
    let a = model.add_source("a".to_string(), fact(4));
    let b = model.add_source("b".to_string(), fact(6));
    let cat = model.wire("cat".to_string(), Op::Concat(0), vec![fact(10)], &vec![a, b]).unwrap()[0];
    let sliced = wire_typed(&mut model, "slice".to_string(), slice(0, 5, 9), cat).unwrap();
    model.set_output_outlets(&vec![sliced]).unwrap();
    let plan = SimplePlan::new(&model).unwrap();
    let inputs = vec![vec![0, 1, 2, 3], vec![10, 11, 12, 13, 14, 15]];
    let expected = SimpleState::new().run(&model, &plan, &inputs).unwrap();
    assert_eq!(expected, vec![vec![11, 12, 13, 14]]);
    let patch = declutter_node(&model, sliced.node).unwrap().unwrap();
    assert_eq!(patch.incoming.get(OutletId::new(0, 0)), Some(b));
    assert_eq!(patch.model.node_op(1), &slice(0, 1, 5));
    patch.apply(&mut model).unwrap();
    let plan = SimplePlan::new(&model).unwrap();
    assert_eq!(SimpleState::new().run(&model, &plan, &inputs).unwrap(), expected);
    assert_eq!(model.eval_order().unwrap(), vec![b.node, 4]);
}
