//! oxenDB: an embeddable SQL database engine.
//!
//! The crate is organized by subsystem. Lower layers (storage) know nothing
//! about higher layers (catalog, SQL, execution).
//!
//! The library decides and computes; it performs no I/O. What is to be done
//! to a file is handed out as a list of operations, and the outcome is taken
//! back.

pub mod db;
pub mod error;
pub mod storage;
pub mod text;

pub use db::{Database, OpenReport, Options, ReadTxn, WriteTxn};
pub use error::{Error, Result};
