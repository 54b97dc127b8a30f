//! The single-file container: its writing end and its reading end.

pub mod laws;
pub mod older;
pub mod places;
pub mod policy;
pub mod reader;
pub mod writer;
