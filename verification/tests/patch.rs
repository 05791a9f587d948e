use tract::datum::DatumType;
use tract::dim::TDim;
use tract::facts::TypedFact;
use tract::model::{InletId, Model, ModelError, OutletId};
use tract::ops::{Downsample, Op};
use tract::patch::ModelPatch;

type TypedModel = Model<TypedFact, Op>;
type TypedModelPatch = ModelPatch<TypedFact, Op>;

fn fact(len: i32) -> TypedFact {
    TypedFact::dt_shape(DatumType::I32, vec![TDim::from(len)])
}

fn chain() -> TypedModel {
    let mut model = TypedModel::new();
    let a = model.add_source("a".to_string(), fact(4));
    let b = model.add_node("b".to_string(), Op::Identity, vec![fact(4)]);
    let c = model.add_node("c".to_string(), Op::Identity, vec![fact(4)]);
    model.add_edge(a, InletId::new(b, 0)).unwrap();
    model.add_edge(OutletId::new(b, 0), InletId::new(c, 0)).unwrap();
    model.set_output_outlets(&vec![OutletId::new(c, 0)]).unwrap();
    model.set_outlet_label(OutletId::new(b, 0), "middle".to_string());
    model
}

fn shape_of(model: &TypedModel) -> Vec<(String, Op, Vec<OutletId>, Vec<Vec<InletId>>)> {
    model
        .nodes
        .iter()
        .map(|n| {
            (
                n.name.clone(),
                n.op.clone(),
                n.inputs.clone(),
                n.outputs.iter().map(|o| o.successors.clone()).collect(),
            )
        })
        .collect()
}

#[test]
fn an_empty_patch_is_empty() {
    let mut patch = TypedModelPatch::new();
    assert!(patch.is_empty());
    patch.obliterate(3).unwrap();
    assert!(!patch.is_empty());
    let mut patch = TypedModelPatch::new();
    patch.tap_model(&chain(), OutletId::new(0, 0)).unwrap();
    assert!(!patch.is_empty());
}

#[test]
fn tap_copies_the_fact() {
    let model = chain();
    let mut patch = TypedModelPatch::new();
    let tap = patch.tap_model(&model, OutletId::new(1, 0)).unwrap();
    assert_eq!(tap, OutletId::new(0, 0));
    assert_eq!(patch.model.outlet_fact(tap), Ok(&fact(4)));
    assert_eq!(patch.model.node_name(0), "incoming-1/0");
    assert_eq!(patch.model.node_op(0), &Op::Source);
    assert_eq!(patch.incoming.get(tap), Some(OutletId::new(1, 0)));
    assert_eq!(
        patch.tap_model(&model, OutletId::new(1, 3)),
        Err(ModelError::NoSuchOutlet(OutletId::new(1, 3)))
    );
}

#[test]
fn shunt_asks_for_the_same_fact() {
    let model = chain();
    let mut patch = TypedModelPatch::new();
    let tap = patch.tap_model(&model, OutletId::new(0, 0)).unwrap();
    let other = patch.model.add_node("other".to_string(), Op::Identity, vec![fact(5)]);
    assert_eq!(
        patch.shunt_outside(&model, OutletId::new(1, 0), OutletId::new(other, 0)),
        Err(ModelError::FactMismatch(OutletId::new(1, 0)))
    );
    assert_eq!(
        patch.shunt_outside(&model, OutletId::new(8, 0), tap),
        Err(ModelError::NoSuchOutlet(OutletId::new(8, 0)))
    );
    assert_eq!(
        patch.shunt_outside(&model, OutletId::new(1, 0), OutletId::new(4, 0)),
        Err(ModelError::NoSuchOutlet(OutletId::new(4, 0)))
    );
    assert!(patch.shunt_outlet_by.is_empty());
    patch.shunt_outside(&model, OutletId::new(1, 0), tap).unwrap();
    assert_eq!(patch.shunt_outlet_by.get(OutletId::new(1, 0)), Some(tap));
}

#[test]
fn tapping_and_shunting_back_changes_nothing() {
    let mut model = chain();
    let d = model.add_node("d".to_string(), Op::Identity, vec![fact(4)]);
    model.add_edge(OutletId::new(1, 0), InletId::new(d, 0)).unwrap();
    let before = shape_of(&model);
    let mut patch = TypedModelPatch::new();
    for o in [OutletId::new(0, 0), OutletId::new(1, 0), OutletId::new(2, 0)] {
        let tap = patch.tap_model(&model, o).unwrap();
        patch.shunt_outside(&model, o, tap).unwrap();
    }
    patch.apply(&mut model).unwrap();
    assert_eq!(shape_of(&model), before);
    assert_eq!(model.output_outlets(), &vec![OutletId::new(2, 0)]);
    assert_eq!(model.input_outlets(), &vec![OutletId::new(0, 0)]);
    assert_eq!(model.outlet_label(OutletId::new(1, 0)), Some(&"middle".to_string()));
    assert_eq!(model.labels.len(), 1);
}

#[test]
fn the_inputs_tapped_and_shunted_back_change_nothing() {
    let mut model = chain();
    let before = shape_of(&model);
    let patch = TypedModelPatch::shunt_inputs_back(&model);
    assert_eq!(patch.model.nodes.len(), 1);
    assert_eq!(patch.model.node_name(0), "incoming-0/0");
    assert_eq!(patch.apply(&mut model), Ok(()));
    assert_eq!(shape_of(&model), before);
    assert_eq!(model.input_outlets(), &vec![OutletId::new(0, 0)]);
    assert_eq!(model.output_outlets(), &vec![OutletId::new(2, 0)]);
}

#[test]
fn shunt_one_op_bypasses_the_node() {
    let mut model = chain();
    let patch = TypedModelPatch::shunt_one_op(&model, 1).unwrap();
    patch.apply(&mut model).unwrap();
    assert_eq!(model.nodes.len(), 3);
    assert_eq!(model.node_inputs(2), &vec![OutletId::new(0, 0)]);
    assert_eq!(
        model.outlet_successors(OutletId::new(0, 0)),
        &vec![InletId::new(1, 0), InletId::new(2, 0)]
    );
    assert!(model.outlet_successors(OutletId::new(1, 0)).is_empty());
    assert_eq!(model.eval_order(), Ok(vec![0, 2]));
    assert_eq!(model.outlet_label(OutletId::new(0, 0)), Some(&"middle".to_string()));
    assert_eq!(model.node_op(1), &Op::Dummy);
}

#[test]
fn shunt_one_op_of_an_output_moves_the_output() {
    let mut model = chain();
    let patch = TypedModelPatch::shunt_one_op(&model, 2).unwrap();
    patch.apply(&mut model).unwrap();
    assert_eq!(model.output_outlets(), &vec![OutletId::new(1, 0)]);
    assert_eq!(model.input_outlets().len(), 1);
}

#[test]
fn shunt_one_op_refuses() {
    let model = chain();
    assert_eq!(TypedModelPatch::shunt_one_op(&model, 9).err(), Some(ModelError::NoSuchNode(9)));
    assert_eq!(
        TypedModelPatch::shunt_one_op(&model, 0).err(),
        Some(ModelError::NoSuchInput(InletId::new(0, 0)))
    );
    let mut model = chain();
    model.set_outlet_fact(OutletId::new(1, 0), fact(5)).unwrap();
    assert_eq!(
        TypedModelPatch::shunt_one_op(&model, 1).err(),
        Some(ModelError::FactMismatch(OutletId::new(1, 0)))
    );
}

#[test]
fn obliterate_leaves_a_dummy() {
    let mut model = chain();
    let mut patch = TypedModelPatch::new();
    let tap = patch.tap_model(&model, OutletId::new(0, 0)).unwrap();
    patch.shunt_outside(&model, OutletId::new(1, 0), tap).unwrap();
    patch.obliterate(1).unwrap();
    patch.apply(&mut model).unwrap();
    assert_eq!(model.node_op(1), &Op::Dummy);
    assert_eq!(model.node_name(1), "b");
    assert_eq!(model.nodes[1].outputs.len(), 1);
    assert_eq!(model.nodes.len(), 3);
}

#[test]
fn replace_single_op_puts_a_node_in_place() {
    let mut model = chain();
    let op = Op::Downsample(Downsample::new(0, 1, 0));
    let patch =
        TypedModelPatch::replace_single_op(&model, 1, &vec![OutletId::new(0, 0)], op.clone())
            .unwrap();
    assert_eq!(patch.model.nodes.len(), 2);
    assert_eq!(patch.model.node_name(0), "b");
    patch.apply(&mut model).unwrap();
    assert_eq!(model.nodes.len(), 4);
    assert_eq!(model.node_op(3), &op);
    assert_eq!(model.node_name(3), "b");
    assert_eq!(model.node_inputs(3), &vec![OutletId::new(0, 0)]);
    assert_eq!(model.node_inputs(2), &vec![OutletId::new(3, 0)]);
    assert_eq!(model.eval_order(), Ok(vec![0, 3, 2]));
    assert_eq!(model.output_outlets().len(), 1);
    assert_eq!(model.input_outlets().len(), 1);
}

#[test]
fn single_unary_op_reads_the_first_input() {
    let mut model = chain();
    let patch = TypedModelPatch::single_unary_op(&model, 2, Op::Identity).unwrap();
    patch.apply(&mut model).unwrap();
    assert_eq!(model.output_outlets(), &vec![OutletId::new(3, 0)]);
    assert_eq!(model.node_inputs(3), &vec![OutletId::new(1, 0)]);
    assert_eq!(
        TypedModelPatch::single_unary_op(&model, 0, Op::Identity).err(),
        Some(ModelError::NoSuchInput(InletId::new(0, 0)))
    );
}

#[test]
fn fuse_with_next_takes_both_places() {
    let mut model = chain();
    let patch = TypedModelPatch::fuse_with_next(&model, 1, Op::Concat(0)).unwrap();
    patch.apply(&mut model).unwrap();
    assert_eq!(model.node_op(3), &Op::Concat(0));
    assert_eq!(model.node_inputs(3), &vec![OutletId::new(0, 0)]);
    assert_eq!(model.output_outlets(), &vec![OutletId::new(3, 0)]);
    assert_eq!(model.eval_order(), Ok(vec![0, 3]));
    assert_eq!(
        TypedModelPatch::fuse_with_next(&model, 2, Op::Identity).err(),
        Some(ModelError::NoSingleSuccessor(2))
    );
}

#[test]
fn intercept_puts_a_node_on_an_outlet() {
    let mut model = chain();
    let patch = TypedModelPatch::intercept(
        &model,
        OutletId::new(1, 0),
        "spy".to_string(),
        Op::Identity,
        fact(4),
    )
    .unwrap();
    patch.apply(&mut model).unwrap();
    assert_eq!(model.node_name(3), "spy");
    assert_eq!(model.node_inputs(3), &vec![OutletId::new(1, 0)]);
    assert_eq!(model.node_inputs(2), &vec![OutletId::new(3, 0)]);
    assert_eq!(model.outlet_successors(OutletId::new(1, 0)), &vec![InletId::new(3, 0)]);
    assert_eq!(model.eval_order(), Ok(vec![0, 1, 3, 2]));
    assert_eq!(
        TypedModelPatch::intercept(
            &model,
            OutletId::new(1, 0),
            "spy".to_string(),
            Op::Identity,
            fact(5)
        )
        .err(),
        Some(ModelError::FactMismatch(OutletId::new(1, 0)))
    );
}

#[test]
fn a_patch_that_does_not_fit_changes_nothing() {
    let mut model = chain();
    let before = shape_of(&model);
    let mut patch = TypedModelPatch::shunt_one_op(&model, 1).unwrap();
    patch.obliterate(7).unwrap();
    assert_eq!(patch.check(&model), Err(ModelError::NoSuchNode(7)));
    assert_eq!(patch.apply(&mut model), Err(ModelError::NoSuchNode(7)));
    assert_eq!(shape_of(&model), before);
    let mut patch = TypedModelPatch::new();
    patch.model.add_source("loose".to_string(), fact(4));
    assert_eq!(patch.apply(&mut model), Err(ModelError::Unmapped(OutletId::new(0, 0))));
    assert_eq!(shape_of(&model), before);
}
