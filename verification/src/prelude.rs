//! The library's main types in one import.
pub use crate::culture::{Culture, CultureBuilder};
pub use crate::consortium::{Consortium, ConsortiumBuilder, Interaction};
pub use crate::metabolism::MetabolismKind;
pub use crate::relation::Relation;
pub use crate::starter::{CSP, Starter};
pub use crate::certificate::{ConvergenceProof, ConvergenceBound};
pub use crate::bake::{Assignments, BakeResult, Baker};
