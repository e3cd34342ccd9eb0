//! Write-ahead log.

pub mod log;
pub mod record;

pub use log::{OpenedWal, Wal};
pub use record::{TxnId, WalRecord};
