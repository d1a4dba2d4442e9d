//! A small, verified feed-forward neural-network trainer.
//!
//! The crate is generic over the scalar type: the matrix engine and the
//! network state machine are verified here, while a caller supplies the
//! concrete scalar arithmetic (addition, multiplication, an activation
//! pair) as closures whose behaviour the contracts quantify over.

pub mod activation;
pub mod matrix;
pub mod network;
pub mod rng;
