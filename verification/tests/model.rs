use tract::datum::DatumType;
use tract::dim::TDim;
use tract::facts::TypedFact;
use tract::model::{InletId, Model, ModelError, OutletId};
use tract::ops::Op;

type TypedModel = Model<TypedFact, Op>;

fn fact(len: i32) -> TypedFact {
    TypedFact::dt_shape(DatumType::I32, vec![TDim::from(len)])
}

fn chain() -> TypedModel {
    let mut model = TypedModel::new();
    let a = model.add_source("a".to_string(), fact(4));
    let b = model.add_node("b".to_string(), Op::Identity, vec![fact(4)]);
    let c = model.add_node("c".to_string(), Op::Identity, vec![fact(4)]);
    model.add_edge(a, InletId::new(b, 0)).unwrap();
    model.add_edge(OutletId::new(b, 0), InletId::new(c, 0)).unwrap();
    model.set_output_outlets(&vec![OutletId::new(c, 0)]).unwrap();
    model
}

#[test]
fn nodes_are_numbered_as_they_come() {
    let mut model = TypedModel::new();
    assert_eq!(model.add_node("x".to_string(), Op::Identity, vec![fact(1), fact(2)]), 0);
    assert_eq!(model.add_node("y".to_string(), Op::Identity, vec![]), 1);
    assert_eq!(model.add_source("z".to_string(), fact(3)), OutletId::new(2, 0));
    assert_eq!(model.nodes[0].id, 0);
    assert_eq!(model.nodes[0].outputs.len(), 2);
    assert_eq!(model.nodes[1].outputs.len(), 0);
    assert_eq!(model.node_name(2), "z");
    assert_eq!(model.node_op(2), &Op::Source);
    assert_eq!(model.input_outlets(), &vec![OutletId::new(2, 0)]);
    assert!(model.node_inputs(0).is_empty());
}

#[test]
fn edges_are_kept_on_both_ends() {
    let model = chain();
    assert_eq!(model.node_inputs(1), &vec![OutletId::new(0, 0)]);
    assert_eq!(model.outlet_successors(OutletId::new(0, 0)), &vec![InletId::new(1, 0)]);
    assert_eq!(model.outlet_successors(OutletId::new(1, 0)), &vec![InletId::new(2, 0)]);
    assert!(model.outlet_successors(OutletId::new(2, 0)).is_empty());
}

#[test]
fn an_edge_to_a_connected_inlet_moves_it() {
    let mut model = chain();
    model.add_edge(OutletId::new(0, 0), InletId::new(2, 0)).unwrap();
    assert_eq!(model.node_inputs(2), &vec![OutletId::new(0, 0)]);
    assert_eq!(
        model.outlet_successors(OutletId::new(0, 0)),
        &vec![InletId::new(1, 0), InletId::new(2, 0)]
    );
    assert!(model.outlet_successors(OutletId::new(1, 0)).is_empty());
    model.add_edge(OutletId::new(0, 0), InletId::new(1, 0)).unwrap();
    assert_eq!(
        model.outlet_successors(OutletId::new(0, 0)),
        &vec![InletId::new(2, 0), InletId::new(1, 0)]
    );
}

#[test]
fn edges_that_cannot_be_made() {
    let mut model = chain();
    assert_eq!(
        model.add_edge(OutletId::new(0, 0), InletId::new(7, 0)),
        Err(ModelError::NoSuchNode(7))
    );
    assert_eq!(
        model.add_edge(OutletId::new(0, 1), InletId::new(1, 0)),
        Err(ModelError::NoSuchOutlet(OutletId::new(0, 1)))
    );
    assert_eq!(
        model.add_edge(OutletId::new(9, 0), InletId::new(1, 0)),
        Err(ModelError::NoSuchOutlet(OutletId::new(9, 0)))
    );
    assert_eq!(
        model.add_edge(OutletId::new(0, 0), InletId::new(1, 2)),
        Err(ModelError::InputOutOfOrder(InletId::new(1, 2)))
    );
    assert_eq!(model.node_inputs(1), &vec![OutletId::new(0, 0)]);
}

#[test]
fn inputs_and_outputs_are_outlets() {
    let mut model = chain();
    assert_eq!(
        model.set_output_outlets(&vec![OutletId::new(2, 0), OutletId::new(2, 1)]),
        Err(ModelError::NoSuchOutlet(OutletId::new(2, 1)))
    );
    assert_eq!(model.output_outlets(), &vec![OutletId::new(2, 0)]);
    model.set_input_outlets(&vec![OutletId::new(1, 0), OutletId::new(0, 0)]).unwrap();
    assert_eq!(model.input_outlets(), &vec![OutletId::new(1, 0), OutletId::new(0, 0)]);
    assert_eq!(
        model.set_input_outlets(&vec![OutletId::new(5, 0)]),
        Err(ModelError::NoSuchOutlet(OutletId::new(5, 0)))
    );
}

#[test]
fn facts_and_labels() {
    let mut model = chain();
    assert_eq!(model.outlet_fact(OutletId::new(1, 0)), Ok(&fact(4)));
    model.set_outlet_fact(OutletId::new(1, 0), fact(9)).unwrap();
    assert_eq!(model.outlet_fact(OutletId::new(1, 0)), Ok(&fact(9)));
    assert_eq!(
        model.set_outlet_fact(OutletId::new(1, 1), fact(9)),
        Err(ModelError::NoSuchOutlet(OutletId::new(1, 1)))
    );
    assert_eq!(
        model.outlet_fact(OutletId::new(3, 0)),
        Err(ModelError::NoSuchOutlet(OutletId::new(3, 0)))
    );
    assert_eq!(model.outlet_label(OutletId::new(1, 0)), None);
    model.set_outlet_label(OutletId::new(1, 0), "one".to_string());
    model.set_outlet_label(OutletId::new(2, 0), "two".to_string());
    model.set_outlet_label(OutletId::new(1, 0), "uno".to_string());
    assert_eq!(model.outlet_label(OutletId::new(1, 0)), Some(&"uno".to_string()));
    assert_eq!(model.outlet_label(OutletId::new(2, 0)), Some(&"two".to_string()));
    assert_eq!(model.labels.len(), 2);
}

#[test]
fn eval_order_follows_the_edges() {
    let model = chain();
    assert_eq!(model.eval_order(), Ok(vec![0, 1, 2]));
    let mut model = TypedModel::new();
    let late = model.add_node("late".to_string(), Op::Concat(0), vec![fact(8)]);
    let a = model.add_source("a".to_string(), fact(4));
    let b = model.add_source("b".to_string(), fact(4));
    let unused = model.add_source("unused".to_string(), fact(4));
    model.add_edge(b, InletId::new(late, 0)).unwrap();
    model.add_edge(a, InletId::new(late, 1)).unwrap();
    model.set_output_outlets(&vec![OutletId::new(late, 0)]).unwrap();
    assert_eq!(model.eval_order(), Ok(vec![b.node, a.node, late]));
    assert!(model.is_input_node(unused.node));
    assert!(!model.is_input_node(late));
}

#[test]
fn eval_order_finds_a_cycle() {
    let mut model = TypedModel::new();
    let a = model.add_node("a".to_string(), Op::Identity, vec![fact(4)]);
    let b = model.add_node("b".to_string(), Op::Identity, vec![fact(4)]);
    model.add_edge(OutletId::new(a, 0), InletId::new(b, 0)).unwrap();
    model.add_edge(OutletId::new(b, 0), InletId::new(a, 0)).unwrap();
    model.set_output_outlets(&vec![OutletId::new(b, 0)]).unwrap();
    assert_eq!(model.eval_order(), Err(ModelError::Cycle));
}

#[test]
fn single_successor_and_predecessor() {
    let model = chain();
    assert_eq!(model.single_succ(0), Some(1));
    assert_eq!(model.single_succ(1), Some(2));
    assert_eq!(model.single_succ(2), None);
    assert_eq!(model.single_prec(2), Some(1));
    assert_eq!(model.single_prec(0), None);
    let mut model = chain();
    let d = model.add_node("d".to_string(), Op::Identity, vec![fact(4)]);
    model.add_edge(OutletId::new(0, 0), InletId::new(d, 0)).unwrap();
    assert_eq!(model.single_succ(0), None);
    assert_eq!(model.single_prec(1), None);
    assert_eq!(model.only_successor(1), Some(InletId::new(2, 0)));
}

#[test]
fn wire_connects_in_order() {
    let mut model = TypedModel::new();
    let a = model.add_source("a".to_string(), fact(4));
    let b = model.add_source("b".to_string(), fact(4));
    let outs = model.wire("cat".to_string(), Op::Concat(0), vec![fact(8)], &vec![b, a]).unwrap();
    assert_eq!(outs, vec![OutletId::new(2, 0)]);
    assert_eq!(model.node_inputs(2), &vec![b, a]);
    assert_eq!(model.outlet_successors(a), &vec![InletId::new(2, 1)]);
    let before = model.nodes.len();
    assert_eq!(
        model.wire("bad".to_string(), Op::Identity, vec![fact(4)], &vec![a, OutletId::new(9, 0)]),
        Err(ModelError::NoSuchOutlet(OutletId::new(9, 0)))
    );
    assert_eq!(model.nodes.len(), before);
}
