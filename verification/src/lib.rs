//! The Forest archive format and the chain data that goes into it: CAR blocks
//! in seekable zstd frames with an embedded index, block headers, tipsets, and
//! signatures.

pub mod blocks;
pub mod cid_collections;
pub mod db;
pub mod shim;
pub mod utils;
