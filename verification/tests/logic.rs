use tract::datum::DatumType;
use tract::dim::TDim;
use tract::error::OpError;
use tract::facts::TypedFact;
use tract::ops::{Conv, EyeLike, Merge, Switch};
use tract::tensor::Tensor;

fn vector(data: Vec<i64>) -> Tensor {
    Tensor { datum_type: DatumType::I64, shape: vec![data.len()], data }
}

fn truth(v: bool) -> Tensor {
    Tensor::scalar(DatumType::Bool, v as i64)
}

fn known(shape: Vec<i32>) -> TypedFact {
    TypedFact::dt_shape(DatumType::I64, shape.into_iter().map(TDim::from).collect())
}

fn with_value(shape: Vec<i32>, value: i64) -> TypedFact {
    let mut fact = known(shape);
    fact.konst = Some(Tensor::scalar(DatumType::I64, value));
    fact
}

#[test]
fn a_switch_sends_its_input_one_way() {
    let op = Switch::new(2);
    assert_eq!(op.eval(vector(vec![1, 2]), &truth(true)), Ok((None, Some(vector(vec![1, 2])))));
    assert_eq!(op.eval(vector(vec![1, 2]), &truth(false)), Ok((Some(vector(vec![1, 2])), None)));
    assert_eq!(op.eval(vector(vec![1, 2]), &vector(vec![1])), Err(OpError::NoValue(1)));
    let facts = op.output_facts(&vec![known(vec![2, 3])]).unwrap();
    assert_eq!(facts.len(), 2);
    assert_eq!(facts[1].datum_type, DatumType::F32);
    assert_eq!(facts[1].shape, vec![TDim::from(2), TDim::from(3)]);
    assert_eq!(op.name(), "tf.Switch");
}

#[test]
fn a_merge_takes_the_first_tensor_there_is() {
    let op = Merge::new(3);
    assert_eq!(
        op.eval(vec![None, Some(vector(vec![5])), Some(vector(vec![6]))]),
        Ok((vector(vec![5]), 1))
    );
    assert_eq!(op.eval(vec![None, None]), Err(OpError::NoValue(0)));
    let facts = op.output_facts(&vec![known(vec![4])]).unwrap();
    assert_eq!(facts[0].shape, vec![TDim::from(4)]);
    assert_eq!(facts[1].datum_type, DatumType::I32);
    assert!(facts[1].shape.is_empty());
    assert_eq!(op.output_facts(&vec![]), Err(OpError::WrongArity(0)));
}

#[test]
fn an_eye_holds_ones_along_its_diagonal() {
    let eye = EyeLike::new(None, 0).make(DatumType::I64, 2, 3).unwrap();
    assert_eq!(eye.shape, vec![2, 3]);
    assert_eq!(eye.data, vec![1, 0, 0, 0, 1, 0]);
    let above = EyeLike::new(None, 1).make(DatumType::I64, 2, 3).unwrap();
    assert_eq!(above.data, vec![0, 1, 0, 0, 0, 1]);
    let below = EyeLike::new(Some(DatumType::I32), -1);
    let input = Tensor { datum_type: DatumType::I64, shape: vec![3, 2], data: vec![0; 6] };
    let out = below.eval(&input).unwrap();
    assert_eq!(out.datum_type, DatumType::I32);
    assert_eq!(out.data, vec![0, 0, 1, 0, 0, 1]);
    assert_eq!(below.eval(&vector(vec![1])), Err(OpError::NoSuchAxis(1)));
    assert_eq!(
        EyeLike::new(None, 0).make(DatumType::I64, usize::MAX, 2),
        Err(OpError::Overflow)
    );
    let facts = below.output_facts(&vec![known(vec![3, 2])]).unwrap();
    assert_eq!(facts[0].datum_type, DatumType::I32);
}

#[test]
fn a_convolution_with_a_known_kernel_is_reduced() {
    let conv = Conv::new().bias_input(2);
    let data = known(vec![1, 4, 8, 8]);
    let kernel = with_value(vec![16, 4, 3, 3], 7);
    let bias = with_value(vec![16], 1);
    let unary = conv.to_unary(&vec![data, kernel, bias]).unwrap().unwrap();
    assert_eq!(unary.kernel, Tensor::scalar(DatumType::I64, 7));
    assert_eq!(unary.bias, Some(Tensor::scalar(DatumType::I64, 1)));
    assert_eq!(unary.group, 1);
    assert_eq!(unary.output_datum_type, DatumType::I64);
    assert_eq!(unary.qp, None);
}

#[test]
fn a_quantized_convolution_keeps_its_zero_points() {
    let conv = Conv::new().x_zero_point_input(2).k_zero_point_input(3);
    let data = known(vec![1, 4, 8, 8]);
    let kernel = with_value(vec![16, 4, 3, 3], 7);
    let mut x_zero = known(vec![2]);
    x_zero.konst = Some(Tensor { datum_type: DatumType::U8, shape: vec![2], data: vec![3, 3] });
    let mut k_zero = known(vec![]);
    k_zero.konst = Some(Tensor::scalar(DatumType::I8, 0));
    let unary = conv.to_unary(&vec![data, kernel, x_zero, k_zero]).unwrap().unwrap();
    let qp = unary.qp.unwrap();
    assert_eq!(qp.c_datum_type, DatumType::I64);
    assert_eq!(qp.zero_point_b, Some(Tensor::scalar(DatumType::U8, 3)));
    assert_eq!(qp.zero_point_a, None);
    assert_eq!(qp.zero_point_c, None);
    let qp = qp.with_zero_point_c(&Tensor::scalar(DatumType::I32, 0));
    assert_eq!(qp.zero_point_c, Some(Tensor::scalar(DatumType::I32, 0)));
}

#[test]
fn a_convolution_waits_for_its_kernel() {
    let conv = Conv::new();
    assert_eq!(conv.to_unary(&vec![known(vec![1, 4, 8, 8]), known(vec![16, 4, 3, 3])]), Ok(None));
    let grouped = Conv::new().group(2);
    assert_eq!(
        grouped.to_unary(&vec![known(vec![1, 8, 8, 8]), known(vec![16, 4, 3, 3])]),
        Ok(None)
    );
}

#[test]
fn a_convolution_refuses_what_does_not_fit() {
    let conv = Conv::new();
    assert_eq!(
        conv.to_unary(&vec![known(vec![1, 5, 8, 8]), with_value(vec![16, 4, 3, 3], 7)]),
        Err(OpError::ChannelMismatch)
    );
    assert_eq!(conv.to_unary(&vec![known(vec![1, 4, 8, 8])]), Err(OpError::WrongArity(1)));
    let quantized = Conv::new().x_zero_point_input(2);
    assert_eq!(
        quantized.to_unary(&vec![
            known(vec![1, 4, 8, 8]),
            with_value(vec![16, 4, 3, 3], 7),
            known(vec![]),
        ]),
        Err(OpError::NotConstant(2))
    );
    let last = Conv::new().nhwc().hwio();
    assert_eq!(
        last.to_unary(&vec![known(vec![1, 8, 8, 4]), known(vec![3, 3, 4, 16])]),
        Ok(None)
    );
}
