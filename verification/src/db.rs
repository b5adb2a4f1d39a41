//! The store and the operations on it: bookmark rows, the tag vocabulary,
//! tag reconciliation and search.

pub mod bookmark;
pub mod reconcile;
pub mod search;
pub mod store;
pub mod tag;
