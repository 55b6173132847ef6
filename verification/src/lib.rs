//! A binary codec for Micheline trees: integers, texts, blobs of bytes,
//! sequences and annotated primitive applications, generic over the alphabet
//! of primitives.
//!
//! [`Node::encode`] writes a tree as bytes and [`Node::from`] reads one
//! back. What the bytes are is stated in [`tree`] over mathematical trees;
//! [`laws`] proves that trees read back from their own bytes.

pub mod annotation;
pub mod error;
pub mod frame;
pub mod laws;
pub mod node;
pub mod primitive;
pub mod std_specs;
pub mod tree;
pub mod zarith;

pub use error::DecodeError;
pub use node::Node;
pub use primitive::{Encodable, RawPrimitive};
pub use tree::Tree;
