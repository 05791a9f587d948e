//! The operators of the graph.

pub mod cnn;
pub mod declutter;
pub mod delay;
pub mod downsample;
pub mod eval;
pub mod eye;
pub mod logic;
pub mod op;
pub mod pad;
pub mod scan;
pub mod slice;

pub use delay::Delay;
pub use downsample::Downsample;
pub use op::{Dummy, Op};
pub use pad::{Pad, PadMode, PulsePad};
pub use slice::{PulsedAxisSlice, Slice};
pub use cnn::{
    AvgPool, AvgPoolFixed, Conv, ConvUnary, DataFormat, KernelFormat, PaddingSpec, PoolSpec,
};
pub use eye::EyeLike;
pub use logic::{Merge, Switch};
pub use scan::{InputMapping, OutputMapping, StateInitializer};
pub use scan::lir::{LirScan, LirScanOpParams, ScanState};
