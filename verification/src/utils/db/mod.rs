//! Storage formats.

pub mod car_stream;
