//! Collections of content identifiers.

pub mod hash_map;
