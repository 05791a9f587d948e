//! A neural-network graph core: symbolic dimensions, the operator graph,
//! graph patches and translators, and the streaming ("pulsed") rewrite.

pub mod datum;
pub mod dim;
pub mod error;
pub mod facts;
pub mod fuse;
pub mod model;
pub mod ops;
pub mod patch;
pub mod pipeline;
pub mod plan;
pub mod pulse;
pub mod quant;
pub mod streaming;
pub mod tensor;
pub mod translate_laws;
pub mod translator;
