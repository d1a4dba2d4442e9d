//! The activation capability: a pair of scalar transforms supplied by the
//! caller.
//!
//! `function` is the nonlinearity applied after each linear layer
//! transform. `derivative` is its derivative *expressed over already
//! activated values*: during the backward pass it is always invoked on
//! activation outputs, never on raw pre-activations. The logistic sigmoid
//! fits this convention with `derivative(y) = y * (1 - y)`; a caller
//! supplying another nonlinearity must use a closed form over the
//! activated value in the same way.

use vstd::prelude::*;

verus! {

/// A forward scalar transform and its derivative over activated values,
/// passed together so the network never hard-codes a nonlinearity.
pub struct Activation<F, D> {
    /// The scalar nonlinearity.
    pub function: F,
    /// Its derivative, taking the already activated value.
    pub derivative: D,
}

} // verus!
