//! The rows of the index.
pub mod models;
