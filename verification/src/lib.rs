//! A personal bookmark collection: bookmarks with free-text tags drawn from a
//! shared vocabulary, soft deletion, and a tag-filtered search paged by a
//! descending id cursor.

pub mod api;
pub mod db;
pub mod models;
pub mod seqs;
pub mod text;
