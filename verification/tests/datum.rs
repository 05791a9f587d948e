use tract::datum::{Blob, Datum, DatumType};
use tract::dim::ops::{cast_all, TryCast};
use tract::dim::{DimError, TDim};

#[test]
fn test_cast_dim_to_dim() {
    let t_dim: Vec<TDim> = vec![TDim::from(12), TDim::from(42)];
    let t_i32: Vec<i32> = cast_all(&t_dim).unwrap();
    assert_eq!(t_i32, vec![12, 42]);
    let t_dim_2: Vec<TDim> = cast_all(&t_i32).unwrap();
    assert_eq!(t_dim, t_dim_2);
}

#[test]
fn test_cast_i32_to_dim() {
    let t_i32: Vec<i32> = vec![0i32, 0];
    let dims: Vec<TDim> = cast_all(&t_i32).unwrap();
    assert_eq!(dims.len(), 2);
}

#[test]
fn cast_of_a_stream_fails() {
    let r: Result<i32, DimError> = TDim::s().try_cast();
    assert_eq!(r, Err(DimError::Unresolved('S')));
    let r: Result<TDim, DimError> = 7i32.try_cast();
    assert_eq!(r, Ok(TDim::Val(7)));
}

#[test]
fn super_types_lead_with_the_type() {
    let all = [
        DatumType::Bool,
        DatumType::U8,
        DatumType::U16,
        DatumType::I8,
        DatumType::I16,
        DatumType::I32,
        DatumType::I64,
        DatumType::F16,
        DatumType::F32,
        DatumType::F64,
        DatumType::TDim,
        DatumType::Blob,
        DatumType::String,
    ];
    for dt in all.iter() {
        assert_eq!(dt.super_types()[0], *dt);
        assert_eq!(dt.common_super_type(*dt), Some(*dt));
    }
    assert_eq!(
        DatumType::U8.super_types(),
        vec![
            DatumType::U8,
            DatumType::I16,
            DatumType::I32,
            DatumType::I64,
            DatumType::TDim,
            DatumType::F32
        ]
    );
}

#[test]
fn common_super_types() {
    assert_eq!(DatumType::U8.common_super_type(DatumType::I8), Some(DatumType::I16));
    assert_eq!(DatumType::I8.common_super_type(DatumType::U16), Some(DatumType::I32));
    assert_eq!(DatumType::F16.common_super_type(DatumType::I64), Some(DatumType::F32));
    assert_eq!(DatumType::Bool.common_super_type(DatumType::I32), None);
    assert_eq!(DatumType::String.common_super_type(DatumType::Blob), None);
    assert_eq!(DatumType::F64.common_super_type(DatumType::F32), Some(DatumType::F64));
}

#[test]
fn super_type_for_many() {
    assert_eq!(DatumType::super_type_for(&vec![]), None);
    assert_eq!(DatumType::super_type_for(&vec![DatumType::U8]), Some(DatumType::U8));
    assert_eq!(
        DatumType::super_type_for(&vec![DatumType::U8, DatumType::I8, DatumType::I32]),
        Some(DatumType::I32)
    );
    assert_eq!(DatumType::super_type_for(&vec![DatumType::U8, DatumType::Bool]), None);
}

#[test]
fn integers_and_sizes() {
    assert!(DatumType::I16.is_integer());
    assert!(DatumType::U8.is_integer());
    assert!(!DatumType::F32.is_integer());
    assert!(!DatumType::TDim.is_integer());
    assert!(!DatumType::Bool.is_integer());
    assert_eq!(DatumType::I64.size_of(), 8);
    assert_eq!(DatumType::F16.size_of(), 2);
    assert_eq!(DatumType::Bool.alignment(), 1);
    assert_eq!(DatumType::I32.alignment(), 4);
    assert_eq!(DatumType::TDim.alignment(), std::mem::size_of::<usize>());
    assert_eq!(DatumType::String.alignment(), std::mem::size_of::<usize>());
    assert_eq!(DatumType::Blob.size_of(), std::mem::size_of::<Blob>());
}

#[test]
fn datum_types_of_types() {
    assert_eq!(<i32 as Datum>::datum_type(), DatumType::I32);
    assert_eq!(<u8 as Datum>::datum_type(), DatumType::U8);
    assert_eq!(<TDim as Datum>::datum_type(), DatumType::TDim);
    assert_eq!(<String as Datum>::datum_type(), DatumType::String);
    assert_eq!(<Blob as Datum>::name(), "Blob");
    assert_eq!(<bool as Datum>::name(), "bool");
}
