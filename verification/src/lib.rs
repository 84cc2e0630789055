//! A succinct dynamic bit vector: a balanced binary tree whose leaves hold packed
//! 64-bit words, with access, rank and select, and with insertion, deletion and
//! inversion of single bits, all in time logarithmic in the number of bits.
//!
//! [`DynamicBitVector`] is the vector. Its contracts speak of the sequence of bits that
//! it holds, which is its view, and of the way in which the bits are divided among its
//! leaves. [`Leaf`] is a short bit vector of at most 64 bits, and the words themselves
//! answer the queries of [`StaticBitVec`].

/// Counting and ranking on sequences of bits.
pub mod bits;
/// The commands of a command file, and what they do to a vector.
pub mod commands;
/// The configuration that the command line gives.
pub mod config;
/// Changes to the bookkeeping of a node.
pub mod diff;
/// The balanced tree of nodes and leaves.
pub mod dynamic_vector;
/// The ways an operation can fail.
pub mod error;
/// Leaves: bit vectors of at most 64 bits.
pub mod leaf;
/// Inner nodes.
pub mod node;
/// Reading the lines of a command file.
pub mod parse;
/// Queries on single words.
pub mod primitive_static;
/// The course of a command file.
pub mod script;
/// Values with a side.
pub mod side;
/// What bit containers have in common.
pub mod traits;

pub use crate::commands::Command;
pub use crate::config::Config;
pub use crate::dynamic_vector::DynamicBitVector;
pub use crate::error::BitVecError;
pub use crate::leaf::{Leaf, LeafValue, HALF};
pub use crate::node::Node;
pub use crate::side::Side;
pub use crate::traits::{BitSize, DynBitVec, StaticBitVec};
