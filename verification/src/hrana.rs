//! The Hrana protocol.

pub mod blob;
pub mod proto;
