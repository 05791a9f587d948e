use tract::datum::DatumType;
use tract::dim::TDim;
use tract::facts::{InferenceFact, ShapeFact, TypedFact};
use tract::model::{InletId, Model, ModelError, OutletId};
use tract::ops::{Downsample, Op, Slice};
use tract::pipeline::{into_typed, wire_typed};
use tract::translator::{IntoTranslator, Translate};

type TypedModel = Model<TypedFact, Op>;
type InferenceModel = Model<InferenceFact, Op>;

fn fact(len: i32) -> TypedFact {
    TypedFact::dt_shape(DatumType::I32, vec![TDim::from(len)])
}

fn typed_model() -> TypedModel {
    let mut model = TypedModel::new();
    let a = model.add_source("a".to_string(), fact(8));
    let unused = model.add_source("unused".to_string(), fact(3));
    let b = model.add_source("b".to_string(), fact(8));
    let cat = model.wire("cat".to_string(), Op::Concat(0), vec![fact(16)], &vec![b, a]).unwrap()[0];
    let crop = wire_typed(
        &mut model,
        "crop".to_string(),
        Op::Slice(Slice::new(0, TDim::from(2), TDim::from(12))),
        cat,
    )
    .unwrap();
    let down =
        wire_typed(&mut model, "down".to_string(), Op::Downsample(Downsample::new(0, 2, 1)), crop)
            .unwrap();
    model.set_input_outlets(&vec![b, unused, a]).unwrap();
    model.set_output_outlets(&vec![down, cat]).unwrap();
    model.set_outlet_label(cat, "joined".to_string());
    model.set_outlet_label(down, "result".to_string());
    model
}

#[test]
fn translating_into_the_same_flavour_keeps_the_model() {
    let model = typed_model();
    let (copy, mapping): (TypedModel, _) =
        IntoTranslator.translate_model_with_mappings(&model).unwrap();
    assert_eq!(copy.nodes.len(), model.nodes.len());
    for node in &model.nodes {
        let to = mapping.get(OutletId::new(node.id, 0)).unwrap().node;
        let other = &copy.nodes[to];
        assert_eq!(other.name, node.name);
        assert_eq!(other.op, node.op);
        assert_eq!(other.outputs.len(), node.outputs.len());
        for (slot, outlet) in node.outputs.iter().enumerate() {
            assert_eq!(other.outputs[slot].fact, outlet.fact);
            let succs: Vec<InletId> = outlet
                .successors
                .iter()
                .map(|s| InletId::new(mapping.get(OutletId::new(s.node, 0)).unwrap().node, s.slot))
                .collect();
            assert_eq!(other.outputs[slot].successors, succs);
            assert_eq!(
                copy.outlet_label(OutletId::new(to, slot)),
                model.outlet_label(OutletId::new(node.id, slot))
            );
        }
        let inputs: Vec<OutletId> = node.inputs.iter().map(|i| mapping.get(*i).unwrap()).collect();
        assert_eq!(other.inputs, inputs);
    }
    let inputs: Vec<OutletId> =
        model.input_outlets().iter().map(|i| mapping.get(*i).unwrap()).collect();
    assert_eq!(copy.input_outlets(), &inputs);
    let outputs: Vec<OutletId> =
        model.output_outlets().iter().map(|i| mapping.get(*i).unwrap()).collect();
    assert_eq!(copy.output_outlets(), &outputs);
}

#[test]
fn inputs_and_outputs_keep_their_order() {
    let model = typed_model();
    let copy: TypedModel = IntoTranslator.translate_model(&model).unwrap();
    let names = |m: &TypedModel, outlets: &Vec<OutletId>| -> Vec<String> {
        outlets.iter().map(|o| m.node_name(o.node).clone()).collect()
    };
    assert_eq!(names(&copy, copy.input_outlets()), vec!["b", "unused", "a"]);
    assert_eq!(names(&copy, copy.output_outlets()), vec!["down", "cat"]);
    assert_eq!(names(&copy, copy.input_outlets()), names(&model, model.input_outlets()));
    assert_eq!(names(&copy, copy.output_outlets()), names(&model, model.output_outlets()));
}

fn inference_model(complete: bool) -> InferenceModel {
    let mut model = InferenceModel::new();
    let known = InferenceFact::dt_shape(DatumType::I32, vec![TDim::s(), TDim::from(3)]);
    let a = model.add_source("a".to_string(), known);
    let out = if complete {
        InferenceFact::dt_shape(DatumType::I32, vec![TDim::s(), TDim::from(3)])
    } else {
        InferenceFact {
            datum_type: Some(DatumType::I32),
            shape: ShapeFact { open: false, dims: vec![Some(TDim::s()), None] },
            value: None,
        }
    };
    let b = model.wire("b".to_string(), Op::Identity, vec![out], &vec![a]).unwrap()[0];
    model.set_output_outlets(&vec![b]).unwrap();
    model
}

#[test]
fn a_complete_model_is_typed() {
    let typed = into_typed(&inference_model(true)).unwrap();
    assert_eq!(typed.nodes.len(), 2);
    assert_eq!(
        typed.outlet_fact(OutletId::new(1, 0)),
        Ok(&TypedFact::dt_shape(DatumType::I32, vec![TDim::s(), TDim::from(3)]))
    );
    assert_eq!(typed.node_inputs(1), &vec![OutletId::new(0, 0)]);
    assert_eq!(typed.input_outlets().len(), 1);
    assert_eq!(typed.output_outlets(), &vec![OutletId::new(1, 0)]);
}

#[test]
fn an_incomplete_fact_is_not_typed() {
    assert_eq!(
        into_typed(&inference_model(false)).err(),
        Some(ModelError::Incomplete(OutletId::new(1, 0)))
    );
    assert!(InferenceFact::any().to_typed().is_none());
    let open = InferenceFact {
        datum_type: Some(DatumType::I32),
        shape: ShapeFact { open: true, dims: vec![] },
        value: None,
    };
    assert!(open.to_typed().is_none());
    let untyped =
        InferenceFact { datum_type: None, shape: ShapeFact { open: false, dims: vec![] }, value: None };
    assert!(untyped.to_typed().is_none());
}

#[test]
fn a_cycle_is_not_translated() {
    let mut model = TypedModel::new();
    let a = model.add_node("a".to_string(), Op::Identity, vec![fact(4)]);
    let b = model.add_node("b".to_string(), Op::Identity, vec![fact(4)]);
    model.add_edge(OutletId::new(a, 0), InletId::new(b, 0)).unwrap();
    model.add_edge(OutletId::new(b, 0), InletId::new(a, 0)).unwrap();
    model.set_output_outlets(&vec![OutletId::new(b, 0)]).unwrap();
    let r: Result<TypedModel, ModelError> = IntoTranslator.translate_model(&model);
    assert_eq!(r.err(), Some(ModelError::Cycle));
}

#[test]
fn a_recorded_node_has_its_outlets_entered_and_labelled() {
    let mut source = TypedModel::new();
    let two = source.add_node("two".to_string(), Op::Identity, vec![fact(1), fact(2)]);
    source.set_outlet_label(OutletId::new(two, 1), "second".to_string());
    let mut target = TypedModel::new();
    let a = target.add_source("a".to_string(), fact(1));
    let b = target.add_source("b".to_string(), fact(2));
    let mut mapping = tract::model::OutletMap::new();
    tract::translator::record(&source, two, &vec![b, a], &mut target, &mut mapping);
    assert_eq!(mapping.get(OutletId::new(two, 0)), Some(b));
    assert_eq!(mapping.get(OutletId::new(two, 1)), Some(a));
    assert_eq!(mapping.len(), 2);
    assert_eq!(target.outlet_label(a), Some(&"second".to_string()));
    assert_eq!(target.outlet_label(b), None);
}
