//! A replicating SQLite server: the row-level binlog, change capture, the
//! Hrana pipeline and the sync protocol, each with the contract it is proved
//! against.

pub mod binlog;
pub mod calendar;
pub mod capture;
pub mod change;
pub mod config;
pub mod convergence;
pub mod error;
pub mod executor;
pub mod hrana;
pub mod http;
pub mod inspect;
pub mod laws;
pub mod model;
pub mod namespace;
pub mod pipeline;
pub mod replica;
pub mod sql;
pub mod statement;
pub mod stream;
pub mod sync;
pub mod text;
pub mod wire;
