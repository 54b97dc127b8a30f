//! Standard messages of mapping and navigation, and their compact encoding.

pub mod codec;
pub mod places;
pub mod same;
pub mod types;
