//! Disjunctive (unary resource) propagation by edge finding over theta-lambda trees.
use vstd::prelude::*;

pub mod engine;
pub mod theta_lambda_trees;
pub mod tree_spec;
pub mod sorting;
pub mod disjunctive;
pub mod soundness;
pub mod agreement;

verus! {

} // verus!
