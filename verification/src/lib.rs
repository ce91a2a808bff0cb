//! A small dense matrix over any copyable element type, and a two-layer
//! feed-forward network built from it.
//!
//! The element type and its arithmetic belong to the caller: every operation
//! that combines elements takes the scalar operations as functions, and its
//! contract is stated over what those functions promise.

pub mod grid;
pub mod mat;
pub mod net;
pub mod random;
pub mod render;

pub use crate::mat::Mat;
pub use crate::net::Xor;
