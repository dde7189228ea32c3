use vstd::prelude::*;

pub mod classification_tree;
pub mod loss_functions;
pub mod metrics;
pub mod tree_core;
pub mod tree_utils;

verus! {

/// Errors reported by training, prediction and scoring.
#[derive(Clone, Copy, Debug, PartialEq, Eq, Structural)]
pub enum TreeError {
    InsufficientData,
    InvalidInput,
    NotImplemented,
    PreconditionViolation,
}

} // verus!
