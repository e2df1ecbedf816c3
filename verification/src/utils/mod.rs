//! Building blocks that the rest of the library shares.

pub mod bytes;
pub mod cid;
pub mod db;
pub mod encoding;
pub mod ipld;
pub mod nonempty;
