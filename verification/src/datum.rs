//! The types of the data that tensors hold.

use vstd::prelude::*;

verus! {

/// A string of bytes as one datum.
#[derive(Debug, Default, Clone, PartialEq, Eq, Hash)]
pub struct Blob(pub Vec<u8>);

/// The type of a datum.
#[derive(Debug, Copy, Clone, PartialEq, Eq, Hash, Structural)]
pub enum DatumType {
    Bool,
    U8,
    U16,
    I8,
    I16,
    I32,
    I64,
    F16,
    F32,
    F64,
    TDim,
    Blob,
    String,
}

/// The types that a datum of type `t` can be taken for without loss, the
/// nearest first; `t` itself leads.
pub open spec fn super_types_spec(t: DatumType) -> Seq<DatumType> {
    match t {
        DatumType::Bool => seq![DatumType::Bool],
        DatumType::U8 => seq![
            DatumType::U8,
            DatumType::I16,
            DatumType::I32,
            DatumType::I64,
            DatumType::TDim,
            DatumType::F32,
        ],
        DatumType::U16 => seq![
            DatumType::U16,
            DatumType::I32,
            DatumType::I64,
            DatumType::TDim,
            DatumType::F32,
        ],
        DatumType::I8 => seq![
            DatumType::I8,
            DatumType::I16,
            DatumType::I32,
            DatumType::I64,
            DatumType::TDim,
            DatumType::F32,
        ],
        DatumType::I16 => seq![
            DatumType::I16,
            DatumType::I32,
            DatumType::I64,
            DatumType::TDim,
            DatumType::F32,
        ],
        DatumType::I32 => seq![DatumType::I32, DatumType::I64, DatumType::TDim, DatumType::F32],
        DatumType::I64 => seq![DatumType::I64, DatumType::TDim, DatumType::F32],
        DatumType::F16 => seq![DatumType::F16, DatumType::F32, DatumType::F64],
        DatumType::F32 => seq![DatumType::F32, DatumType::F64],
        DatumType::F64 => seq![DatumType::F64],
        DatumType::String => seq![DatumType::String],
        DatumType::Blob => seq![DatumType::Blob],
        DatumType::TDim => seq![DatumType::TDim],
    }
}

/// The first of `mine`, from `i` on, that is among `theirs`.
pub open spec fn first_common(mine: Seq<DatumType>, theirs: Seq<DatumType>, i: int) -> Option<
    DatumType,
>
    decreases mine.len() - i,
{
    if i < 0 || i >= mine.len() {
        None
    } else if theirs.contains(mine[i]) {
        Some(mine[i])
    } else {
        first_common(mine, theirs, i + 1)
    }
}

/// The nearest type that data of type `a` and data of type `b` can both be
/// taken for: the first super type of `a` that is one of `b`.
pub open spec fn common_super_type_spec(a: DatumType, b: DatumType) -> Option<DatumType> {
    first_common(super_types_spec(a), super_types_spec(b), 0)
}

/// The type that the first `n` of `ts` can all be taken for, found by
/// taking them in one after the other; none for no types at all.
pub open spec fn super_type_for_spec(ts: Seq<DatumType>, n: int) -> Option<DatumType>
    decreases n,
{
    if n <= 0 {
        None
    } else if n == 1 {
        Some(ts[0])
    } else {
        match super_type_for_spec(ts, n - 1) {
            Some(t) => common_super_type_spec(t, ts[n - 1]),
            None => None,
        }
    }
}

/// The bytes that one datum of type `t` takes; for the compound types, what
/// the machine gives the value that stands for them.
pub open spec fn size_of_spec(t: DatumType) -> nat {
    match t {
        DatumType::Bool => 1,
        DatumType::U8 => 1,
        DatumType::U16 => 2,
        DatumType::I8 => 1,
        DatumType::I16 => 2,
        DatumType::I32 => 4,
        DatumType::I64 => 8,
        DatumType::F16 => 2,
        DatumType::F32 => 4,
        DatumType::F64 => 8,
        DatumType::Blob => vstd::layout::size_of::<Blob>(),
        DatumType::TDim => vstd::layout::size_of::<crate::dim::TDim>(),
        DatumType::String => vstd::layout::size_of::<String>(),
    }
}

impl DatumType {
    /// The types that a datum of this type can be taken for, the nearest
    /// first.
    pub fn super_types(&self) -> (r: Vec<DatumType>)
        ensures
            r@ == super_types_spec(*self),
    {
        let r = match self {
            DatumType::Bool => vec![DatumType::Bool],
            DatumType::U8 => vec![
                DatumType::U8,
                DatumType::I16,
                DatumType::I32,
                DatumType::I64,
                DatumType::TDim,
                DatumType::F32,
            ],
            DatumType::U16 => vec![
                DatumType::U16,
                DatumType::I32,
                DatumType::I64,
                DatumType::TDim,
                DatumType::F32,
            ],
            DatumType::I8 => vec![
                DatumType::I8,
                DatumType::I16,
                DatumType::I32,
                DatumType::I64,
                DatumType::TDim,
                DatumType::F32,
            ],
            DatumType::I16 => vec![
                DatumType::I16,
                DatumType::I32,
                DatumType::I64,
                DatumType::TDim,
                DatumType::F32,
            ],
            DatumType::I32 => vec![
                DatumType::I32,
                DatumType::I64,
                DatumType::TDim,
                DatumType::F32,
            ],
            DatumType::I64 => vec![DatumType::I64, DatumType::TDim, DatumType::F32],
            DatumType::F16 => vec![DatumType::F16, DatumType::F32, DatumType::F64],
            DatumType::F32 => vec![DatumType::F32, DatumType::F64],
            DatumType::F64 => vec![DatumType::F64],
            DatumType::String => vec![DatumType::String],
            DatumType::Blob => vec![DatumType::Blob],
            DatumType::TDim => vec![DatumType::TDim],
        };
        assert(r@ =~= super_types_spec(*self));
        r
    }

    /// The nearest type that data of this type and data of type `rhs` can
    /// both be taken for, if there is one.
    pub fn common_super_type(&self, rhs: DatumType) -> (r: Option<DatumType>)
        ensures
            r == common_super_type_spec(*self, rhs),
    {
        let mine = self.super_types();
        let theirs = rhs.super_types();
        let mut i: usize = 0;
        while i < mine.len()
            invariant
                0 <= i <= mine.len(),
                mine@ == super_types_spec(*self),
                theirs@ == super_types_spec(rhs),
                first_common(mine@, theirs@, 0) == first_common(mine@, theirs@, i as int),
            decreases mine.len() - i,
        {
            let mut j: usize = 0;
            let mut found = false;
            while j < theirs.len()
                invariant
                    0 <= j <= theirs.len(),
                    i < mine.len(),
                    !found,
                    mine@ == super_types_spec(*self),
                    theirs@ == super_types_spec(rhs),
                    first_common(mine@, theirs@, 0) == first_common(mine@, theirs@, i as int),
                    forall|k: int| 0 <= k < j ==> theirs[k] != mine[i as int],
                decreases theirs.len() - j,
            {
                if mine[i] == theirs[j] {
                    assert(theirs@.contains(mine[i as int]));
                    return Some(mine[i]);
                }
                j += 1;
            }
            i += 1;
        }
        None
    }

    /// The type that all of `types` can be taken for, if there is one.
    pub fn super_type_for(types: &Vec<DatumType>) -> (r: Option<DatumType>)
        ensures
            r == super_type_for_spec(types@, types.len() as int),
    {
        if types.len() == 0 {
            return None;
        }
        let mut current = types[0];
        let mut i: usize = 1;
        while i < types.len()
            invariant
                1 <= i <= types.len(),
                super_type_for_spec(types@, i as int) == Some(current),
            decreases types.len() - i,
        {
            match current.common_super_type(types[i]) {
                None => {
                    proof {
                        lemma_super_type_for_none(types@, i as int + 1, types.len() as int);
                    }
                    return None;
                },
                Some(t) => {
                    current = t;
                },
            }
            i += 1;
        }
        Some(current)
    }

    /// Whether this is one of the integer types.
    pub fn is_integer(&self) -> (r: bool)
        ensures
            r == (*self == DatumType::U8 || *self == DatumType::U16 || *self == DatumType::I8
                || *self == DatumType::I16 || *self == DatumType::I32 || *self
                == DatumType::I64),
    {
        match self {
            DatumType::U8
            | DatumType::U16
            | DatumType::I8
            | DatumType::I16
            | DatumType::I32
            | DatumType::I64 => true,
            _ => false,
        }
    }

    /// The bytes that one datum of this type takes.
    pub fn size_of(&self) -> (r: usize)
        ensures
            r as nat == size_of_spec(*self),
    {
        match self {
            DatumType::Bool => 1,
            DatumType::U8 => 1,
            DatumType::U16 => 2,
            DatumType::I8 => 1,
            DatumType::I16 => 2,
            DatumType::I32 => 4,
            DatumType::I64 => 8,
            DatumType::F16 => 2,
            DatumType::F32 => 4,
            DatumType::F64 => 8,
            DatumType::Blob => core::mem::size_of::<Blob>(),
            DatumType::TDim => core::mem::size_of::<crate::dim::TDim>(),
            DatumType::String => core::mem::size_of::<String>(),
        }
    }

    /// The boundary that data of this type is laid out on: that of a machine
    /// word for dimensions and strings, the size of a datum otherwise.
    pub fn alignment(&self) -> (r: usize)
        ensures
            r as nat == (if *self == DatumType::TDim || *self == DatumType::String {
                vstd::layout::size_of::<usize>()
            } else {
                size_of_spec(*self)
            }),
    {
        match self {
            DatumType::TDim => core::mem::size_of::<usize>(),
            DatumType::String => core::mem::size_of::<usize>(),
            _ => self.size_of(),
        }
    }
}

/// Once no type fits the first `n` of `ts`, none fits more of them.
pub proof fn lemma_super_type_for_none(ts: Seq<DatumType>, n: int, m: int)
    requires
        1 <= n <= m,
        super_type_for_spec(ts, n).is_none(),
    ensures
        super_type_for_spec(ts, m).is_none(),
    decreases m - n,
{
    if n < m {
        lemma_super_type_for_none(ts, n, m - 1);
    }
}

/// A type is the first of its own super types, so two data of one type have
/// that type in common.
pub proof fn lemma_common_super_type_same(t: DatumType)
    ensures
        common_super_type_spec(t, t) == Some(t),
{
    assert(super_types_spec(t)[0] == t);
    assert(super_types_spec(t).contains(t));
}

/// A type of data that tensors hold.
pub trait Datum {
    /// The type as a value.
    spec fn datum_type_spec() -> DatumType;

    /// The name of the type.
    spec fn name_spec() -> Seq<char>;

    /// The name of the type.
    fn name() -> (r: &'static str)
        ensures
            r@ == Self::name_spec(),
    ;

    /// The type as a value.
    fn datum_type() -> (r: DatumType)
        ensures
            r == Self::datum_type_spec(),
    ;
}

impl Datum for bool {
    open spec fn datum_type_spec() -> DatumType {
        DatumType::Bool
    }

    open spec fn name_spec() -> Seq<char> {
        "bool"@
    }

    fn name() -> (r: &'static str) {
        "bool"
    }

    fn datum_type() -> (r: DatumType) {
        DatumType::Bool
    }
}

impl Datum for i8 {
    open spec fn datum_type_spec() -> DatumType {
        DatumType::I8
    }

    open spec fn name_spec() -> Seq<char> {
        "i8"@
    }

    fn name() -> (r: &'static str) {
        "i8"
    }

    fn datum_type() -> (r: DatumType) {
        DatumType::I8
    }
}

impl Datum for i16 {
    open spec fn datum_type_spec() -> DatumType {
        DatumType::I16
    }

    open spec fn name_spec() -> Seq<char> {
        "i16"@
    }

    fn name() -> (r: &'static str) {
        "i16"
    }

    fn datum_type() -> (r: DatumType) {
        DatumType::I16
    }
}

impl Datum for i32 {
    open spec fn datum_type_spec() -> DatumType {
        DatumType::I32
    }

    open spec fn name_spec() -> Seq<char> {
        "i32"@
    }

    fn name() -> (r: &'static str) {
        "i32"
    }

    fn datum_type() -> (r: DatumType) {
        DatumType::I32
    }
}

impl Datum for i64 {
    open spec fn datum_type_spec() -> DatumType {
        DatumType::I64
    }

    open spec fn name_spec() -> Seq<char> {
        "i64"@
    }

    fn name() -> (r: &'static str) {
        "i64"
    }

    fn datum_type() -> (r: DatumType) {
        DatumType::I64
    }
}

impl Datum for u8 {
    open spec fn datum_type_spec() -> DatumType {
        DatumType::U8
    }

    open spec fn name_spec() -> Seq<char> {
        "u8"@
    }

    fn name() -> (r: &'static str) {
        "u8"
    }

    fn datum_type() -> (r: DatumType) {
        DatumType::U8
    }
}

impl Datum for u16 {
    open spec fn datum_type_spec() -> DatumType {
        DatumType::U16
    }

    open spec fn name_spec() -> Seq<char> {
        "u16"@
    }

    fn name() -> (r: &'static str) {
        "u16"
    }

    fn datum_type() -> (r: DatumType) {
        DatumType::U16
    }
}

impl Datum for crate::dim::TDim {
    open spec fn datum_type_spec() -> DatumType {
        DatumType::TDim
    }

    open spec fn name_spec() -> Seq<char> {
        "TDim"@
    }

    fn name() -> (r: &'static str) {
        "TDim"
    }

    fn datum_type() -> (r: DatumType) {
        DatumType::TDim
    }
}

impl Datum for String {
    open spec fn datum_type_spec() -> DatumType {
        DatumType::String
    }

    open spec fn name_spec() -> Seq<char> {
        "String"@
    }

    fn name() -> (r: &'static str) {
        "String"
    }

    fn datum_type() -> (r: DatumType) {
        DatumType::String
    }
}

impl Datum for Blob {
    open spec fn datum_type_spec() -> DatumType {
        DatumType::Blob
    }

    open spec fn name_spec() -> Seq<char> {
        "Blob"@
    }

    fn name() -> (r: &'static str) {
        "Blob"
    }

    fn datum_type() -> (r: DatumType) {
        DatumType::Blob
    }
}

} // verus!
