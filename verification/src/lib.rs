//! Lazy composition of text and of chunked data.
//!
//! Fragments are combined into a tree without copying them. The tree can then be walked
//! chunk by chunk or element by element, any number of times, or copied once into an owned
//! result.
//!
//! [`Builder`] is the tree over text; [`sliceiterators`] holds the same cursors for chunks of
//! any element type, and a reader that feeds byte chunks into buffers. [`chunks`] is the
//! mathematical model that both are stated over.

pub mod builder;
pub mod chunks;
pub mod encoding;
pub mod iter;
pub mod sliceiterators;

pub use crate::builder::{
    Builder, Concat, Insert, InsertCharsIter, InsertError, InsertStrsIter,
};
pub use crate::iter::{Chain, CharIter, Once, StrChars, StrIter};
