//! Storage formats.

pub mod car;
