//! An in-memory, size-weighted, time-bounded byte cache for an image gallery,
//! with one load per key under concurrent misses, together with the path
//! sanitising and tag filtering that the gallery's handlers need.

pub mod cache;
pub mod laws;
pub mod model;
pub mod path;
pub mod tags;
mod text;
