//! Symbolic dimensions: integer expressions over symbols such as the stream
//! length `S`.

pub mod tree;
pub mod simplify;
pub mod wiggle;
pub mod reduce;
pub mod eval;
pub mod ops;
pub mod text;

pub use tree::{TDim, Expr};
pub use eval::DimError;
pub use text::DimParseError;
