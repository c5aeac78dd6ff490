//! Constraint satisfaction as fermentation: each CSP variable is a culture
//! whose domain shrinks as mutualistic AC-3 prunes values without partners;
//! baking reads the solution out of the converged consortium.
pub mod text;
pub mod relation;
pub mod subsequence;
pub mod culture;
pub mod consortium;
pub mod fermentation;
pub mod metabolism;
pub mod starter;
pub mod certificate;
pub mod bake;
pub mod prelude;

pub use culture::{Culture, CultureBuilder};
pub use consortium::{Consortium, ConsortiumBuilder, Interaction};
pub use metabolism::MetabolismKind;
pub use relation::Relation;
pub use starter::{CSP, Starter};
pub use certificate::{ConvergenceProof, ConvergenceBound};
pub use bake::{Assignments, BakeResult, Baker};
