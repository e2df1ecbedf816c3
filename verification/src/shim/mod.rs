//! Types of the Filecoin protocol.

pub mod address;
pub mod clock;
pub mod crypto;
pub mod econ;
pub mod sector;
