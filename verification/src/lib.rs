//! A positional-cube-notation engine for two-level Boolean function
//! manipulation: Boolean functions are held as sums of product terms
//! ("cubes"), and the algebraic operations — intersection, union,
//! complementation, Shannon cofactoring, unate detection and tautology
//! testing — follow the unate recursive paradigm.

pub mod cube;
pub mod cubelist;
pub mod laws;
pub mod semantics;

pub use cube::Cube;
pub use cube::Literal;
pub use cubelist::CubeList;
