//! An immutable, structurally shared rope of characters.
//!
//! The tree, its operations and their contracts live in [`text`], stated over
//! the sequence facts of [`model`]. General properties that relate several
//! operations are stated and proved in [`laws`].

pub mod laws;
pub mod model;
pub mod text;

pub use text::{Iter, LineIter, Text, TextNode};
