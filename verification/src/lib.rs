//! Multi-scale models related by renormalization-group transformations, in
//! the language of category theory: finite categories, functors between
//! them, and a fixed-point search over any parameter space. The index
//! arithmetic of the grids on which such models live is here too.
pub mod category;
pub mod functor;
pub mod lattice;
pub mod rg_flow;

pub use category::{Category, FinCategory, Morphism, Object};
pub use functor::{ConcreteFunctor, Functor};
pub use rg_flow::{ParameterSpace, RGFlow};
