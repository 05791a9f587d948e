//! What a matrix product applies to each tile of its result, once the
//! product itself is done.

use vstd::prelude::*;

verus! {

/// A step applied to the whole result of a matrix product.
#[derive(Debug, Clone, PartialEq)]
pub enum FusedSpec<TI> {
    Min(TI),
    Max(TI),
    AddC,
    PerRowMul(Vec<TI>),
    PerRowAdd(Vec<TI>),
    PerColMul(Vec<TI>),
    PerColAdd(Vec<TI>),
    AddRowColProducts(Vec<TI>, Vec<TI>),
    ScalarMul(TI),
    ScalarAdd(TI),
    QEven(TI, usize),
    QToPlusInf(TI, usize),
}

/// A step applied to one tile of the result: where the step has a value for
/// each row or each column, the tile gets those of its rows or columns, as
/// the number of the buffer that holds them. `Done` ends the steps.
#[derive(Debug, Clone, Copy, PartialEq)]
pub enum FusedKerSpec<TI> {
    Done,
    Min(TI),
    Max(TI),
    AddC,
    PerRowMul(usize),
    PerRowAdd(usize),
    PerColMul(usize),
    PerColAdd(usize),
    AddRowColProducts(usize, usize),
    ScalarMul(TI),
    ScalarAdd(TI),
    QEven(TI, usize),
    QToPlusInf(TI, usize),
}

/// The steps for the tile at hand.
pub struct ScratchSpaceFusedNonLinear<TI> {
    pub uspecs: Vec<FusedKerSpec<TI>>,
    pub non_linear_buffers: Vec<Vec<TI>>,
}

/// A scalar that quantization needs, or one for each row or column.
#[derive(Debug, Clone, PartialEq)]
pub enum QuantizedParam<TI> {
    Scalar(TI),
    Vector(Vec<TI>),
}

/// The `width` values of `v` from `start` on, with `zero` where `v` ends
/// before.
pub open spec fn panel<TI>(v: Seq<TI>, start: int, width: int, zero: TI) -> Seq<TI> {
    Seq::new(
        width as nat,
        |i: int|
            if start + i < v.len() {
                v[start + i]
            } else {
                zero
            },
    )
}

/// The step `spec` for the tile of `mr` rows and `nr` columns that stands
/// `down` tiles down and `right` tiles right.
pub open spec fn tile_spec<TI>(
    spec: FusedSpec<TI>,
    down: int,
    right: int,
    mr: int,
    nr: int,
    zero: TI,
) -> FusedKerSpecView<TI> {
    match spec {
        FusedSpec::Min(m) => FusedKerSpecView::Min(m),
        FusedSpec::Max(m) => FusedKerSpecView::Max(m),
        FusedSpec::AddC => FusedKerSpecView::AddC,
        FusedSpec::PerRowMul(v) => FusedKerSpecView::PerRowMul(panel(v@, down * mr, mr, zero)),
        FusedSpec::PerRowAdd(v) => FusedKerSpecView::PerRowAdd(panel(v@, down * mr, mr, zero)),
        FusedSpec::PerColMul(v) => FusedKerSpecView::PerColMul(panel(v@, right * nr, nr, zero)),
        FusedSpec::PerColAdd(v) => FusedKerSpecView::PerColAdd(panel(v@, right * nr, nr, zero)),
        FusedSpec::AddRowColProducts(r, c) => FusedKerSpecView::AddRowColProducts(
            panel(r@, down * mr, mr, zero),
            panel(c@, right * nr, nr, zero),
        ),
        FusedSpec::ScalarMul(t) => FusedKerSpecView::ScalarMul(t),
        FusedSpec::ScalarAdd(t) => FusedKerSpecView::ScalarAdd(t),
        FusedSpec::QEven(m, s) => FusedKerSpecView::QEven(m, s),
        FusedSpec::QToPlusInf(m, s) => FusedKerSpecView::QToPlusInf(m, s),
    }
}

/// A step for a tile, with the values it holds.
pub enum FusedKerSpecView<TI> {
    Done,
    Min(TI),
    Max(TI),
    AddC,
    PerRowMul(Seq<TI>),
    PerRowAdd(Seq<TI>),
    PerColMul(Seq<TI>),
    PerColAdd(Seq<TI>),
    AddRowColProducts(Seq<TI>, Seq<TI>),
    ScalarMul(TI),
    ScalarAdd(TI),
    QEven(TI, usize),
    QToPlusInf(TI, usize),
}

/// The step `spec` with the values that `buffers` hold for it.
pub open spec fn ker_view<TI>(spec: FusedKerSpec<TI>, buffers: Seq<Vec<TI>>) -> FusedKerSpecView<TI> {
    match spec {
        FusedKerSpec::Done => FusedKerSpecView::Done,
        FusedKerSpec::Min(m) => FusedKerSpecView::Min(m),
        FusedKerSpec::Max(m) => FusedKerSpecView::Max(m),
        FusedKerSpec::AddC => FusedKerSpecView::AddC,
        FusedKerSpec::PerRowMul(b) => FusedKerSpecView::PerRowMul(buffers[b as int]@),
        FusedKerSpec::PerRowAdd(b) => FusedKerSpecView::PerRowAdd(buffers[b as int]@),
        FusedKerSpec::PerColMul(b) => FusedKerSpecView::PerColMul(buffers[b as int]@),
        FusedKerSpec::PerColAdd(b) => FusedKerSpecView::PerColAdd(buffers[b as int]@),
        FusedKerSpec::AddRowColProducts(r, c) => FusedKerSpecView::AddRowColProducts(
            buffers[r as int]@,
            buffers[c as int]@,
        ),
        FusedKerSpec::ScalarMul(t) => FusedKerSpecView::ScalarMul(t),
        FusedKerSpec::ScalarAdd(t) => FusedKerSpecView::ScalarAdd(t),
        FusedKerSpec::QEven(m, s) => FusedKerSpecView::QEven(m, s),
        FusedKerSpec::QToPlusInf(m, s) => FusedKerSpecView::QToPlusInf(m, s),
    }
}

/// Whether the buffers that `spec` names are among the first `n`.
pub open spec fn ker_within<TI>(spec: FusedKerSpec<TI>, n: int) -> bool {
    match spec {
        FusedKerSpec::PerRowMul(b) => b < n,
        FusedKerSpec::PerRowAdd(b) => b < n,
        FusedKerSpec::PerColMul(b) => b < n,
        FusedKerSpec::PerColAdd(b) => b < n,
        FusedKerSpec::AddRowColProducts(r, c) => r < n && c < n,
        _ => true,
    }
}

/// The `width` values of `v` from `start` on, with `zero` where `v` ends
/// before.
fn take_panel<TI: Copy>(v: &Vec<TI>, start: usize, width: usize, zero: TI) -> (r: Vec<TI>)
    ensures
        r@ == panel(v@, start as int, width as int, zero),
{
    let mut out: Vec<TI> = Vec::new();
    let mut i: usize = 0;
    while i < width
        invariant
            0 <= i <= width,
            out@ == panel(v@, start as int, i as int, zero),
        decreases width - i,
    {
        let x = if start < v.len() && i < v.len() - start {
            v[start + i]
        } else {
            zero
        };
        out.push(x);
        assert(out@ =~= panel(v@, start as int, i + 1, zero));
        i += 1;
    }
    out
}

impl<TI: Copy> ScratchSpaceFusedNonLinear<TI> {
    /// No steps yet.
    pub fn new() -> (r: Self)
        ensures
            r.uspecs.len() == 0,
            r.non_linear_buffers.len() == 0,
    {
        ScratchSpaceFusedNonLinear { uspecs: Vec::new(), non_linear_buffers: Vec::new() }
    }

    /// Keeps the `width` values of `v` from `start` on in one more buffer,
    /// and gives its number.
    fn keep(&mut self, v: &Vec<TI>, start: usize, width: usize, zero: TI) -> (b: usize)
        ensures
            b == old(self).non_linear_buffers.len(),
            final(self).uspecs == old(self).uspecs,
            final(self).non_linear_buffers.len() == b + 1,
            final(self).non_linear_buffers[b as int]@ == panel(v@, start as int, width as int, zero),
            forall|i: int|
                0 <= i < b ==> #[trigger] final(self).non_linear_buffers[i] == old(self).non_linear_buffers[i],
    {
        let b = self.non_linear_buffers.len();
        self.non_linear_buffers.push(take_panel(v, start, width, zero));
        b
    }

    /// Sets the steps up for the tile of `mr` rows and `nr` columns that
    /// stands `down` tiles down and `right` tiles right: each of `specs` in
    /// order, with the values of the rows and columns of the tile, and
    /// `Done` at the end.
    pub fn for_tile(
        &mut self,
        specs: &Vec<FusedSpec<TI>>,
        down: usize,
        right: usize,
        mr: usize,
        nr: usize,
        zero: TI,
    )
        requires
            down * mr <= usize::MAX,
            right * nr <= usize::MAX,
        ensures
            final(self).uspecs.len() == specs.len() + 1,
            forall|i: int|
                0 <= i < specs.len() ==> ker_view(
                    #[trigger] final(self).uspecs[i],
                    final(self).non_linear_buffers@,
                ) == tile_spec(specs[i], down as int, right as int, mr as int, nr as int, zero),
            final(self).uspecs[specs.len() as int] == FusedKerSpec::<TI>::Done,
    {
        self.uspecs.clear();
        self.non_linear_buffers.clear();
        let row0 = down * mr;
        let col0 = right * nr;
        let mut i: usize = 0;
        while i < specs.len()
            invariant
                0 <= i <= specs.len(),
                row0 == down * mr,
                col0 == right * nr,
                self.uspecs.len() == i,
                forall|j: int|
                    0 <= j < i ==> ker_within(
                        #[trigger] self.uspecs[j],
                        self.non_linear_buffers.len() as int,
                    ) && ker_view(self.uspecs[j], self.non_linear_buffers@) == tile_spec(
                        specs[j],
                        down as int,
                        right as int,
                        mr as int,
                        nr as int,
                        zero,
                    ),
            decreases specs.len() - i,
        {
            let ghost before = self.non_linear_buffers@;
            let ghost done = self.uspecs@;
            let s = match &specs[i] {
                FusedSpec::Min(m) => FusedKerSpec::Min(*m),
                FusedSpec::Max(m) => FusedKerSpec::Max(*m),
                FusedSpec::AddC => FusedKerSpec::AddC,
                FusedSpec::PerRowMul(v) => FusedKerSpec::PerRowMul(self.keep(v, row0, mr, zero)),
                FusedSpec::PerRowAdd(v) => FusedKerSpec::PerRowAdd(self.keep(v, row0, mr, zero)),
                FusedSpec::PerColMul(v) => FusedKerSpec::PerColMul(self.keep(v, col0, nr, zero)),
                FusedSpec::PerColAdd(v) => FusedKerSpec::PerColAdd(self.keep(v, col0, nr, zero)),
                FusedSpec::AddRowColProducts(rows, cols) => {
                    let r = self.keep(rows, row0, mr, zero);
                    let c = self.keep(cols, col0, nr, zero);
                    FusedKerSpec::AddRowColProducts(r, c)
                },
                FusedSpec::ScalarMul(t) => FusedKerSpec::ScalarMul(*t),
                FusedSpec::ScalarAdd(t) => FusedKerSpec::ScalarAdd(*t),
                FusedSpec::QEven(m, s) => FusedKerSpec::QEven(*m, *s),
                FusedSpec::QToPlusInf(m, s) => FusedKerSpec::QToPlusInf(*m, *s),
            };
            proof {
                assert(self.uspecs@ == done);
                assert forall|j: int| 0 <= j < i implies ker_view(
                    #[trigger] self.uspecs[j],
                    self.non_linear_buffers@,
                ) == ker_view(self.uspecs[j], before) by {
                    assert(ker_within(done[j], before.len() as int));
                }
            }
            self.uspecs.push(s);
            i += 1;
        }
        self.uspecs.push(FusedKerSpec::Done);
    }
}

} // verus!
