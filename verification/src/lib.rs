//! Measure theory on finite spaces: sigma-algebras, measurable functions,
//! product spaces and the set-level parts of decompositions and agents.

pub mod order;
pub mod names;
pub mod text;
pub mod family;
pub mod sigma_algebra;
pub mod mapping;
pub mod measurable_function;
pub mod product;
pub mod lebesgue;
pub mod decomposition;
pub mod agent;
pub mod laws;
pub mod meaning;
