//! A markup-tree builder: assemble a tree of tagged nodes carrying
//! attributes and text content, then serialize it into a markup string
//! with the five reserved characters escaped as named entities.
//!
//! Nodes live in a [`tree::Arena`] and are addressed through small
//! copyable [`tree::Element`] handles, so a caller and the tree itself
//! may refer to the same node at once; equality of handles is identity,
//! not structural equality.

pub mod codec;
pub mod render;
pub mod tree;
