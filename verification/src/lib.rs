//! Path identifiers: a bijection between path vectors (finite sequences of
//! non-negative integers that locate a node in a tree) and 2×2 integer
//! matrices built from continued-fraction convergents.
//!
//! [`matrix`] holds the mathematical model and the proof that encoding is
//! injective, [`identifier`] the identifier type with its encoder and
//! decoder, and [`text`] the dot-separated textual form of a path. The laws
//! that tie these together are stated and proved in [`laws`] and
//! [`text_laws`].

pub mod error;
pub mod identifier;
pub mod laws;
pub mod matrix;
pub mod text;
pub mod text_laws;

pub use crate::error::PathError;
pub use crate::identifier::{PathIdentifier, PathIterator};
