//! Patches: small graphs that are grafted onto a model, with the outlets
//! they tap and those they replace.

pub mod spec;
pub mod builder;
pub mod laws;
pub mod apply;
pub mod shortcuts;

pub use builder::ModelPatch;
pub use spec::Patch;
