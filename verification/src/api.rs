//! The operations that the collection offers to a request layer.

pub mod bookmark;
