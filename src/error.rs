//! The ways in which an evaluation fails.
use vstd::prelude::*;

verus! {

/// Why an evaluation stopped.
#[derive(Clone, Debug)]
pub enum EvalError {
    /// An attribute access named a key that is not known.
    UnknownAttribute(String),
    /// The operands of a pointwise operation do not cover the same locations.
    IncompatibleContexts,
    /// A comparison set a scalar against a pixel.
    TypeMismatch,
    /// A function call lacked an argument that it needs.
    MissingArgument,
}

} // verus!
