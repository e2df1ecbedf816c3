//! CAR archives.

pub mod forest;
pub mod plain;
