//! A fixed-capacity cache table that keeps a coherence permission for each
//! line and evicts the least recently used line when full.
pub mod cache;
pub mod messages;
pub mod model;
pub mod theorems;
