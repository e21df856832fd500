//! A log-structured key-value store: an append-only log of records and an
//! index from each live key to the place of its latest record in the log.

pub mod codec;
pub mod error;
pub mod index;
pub mod log;
pub mod model;
pub mod store;
pub mod wire;

pub use codec::LogCommand;
pub use error::KvError;
pub use index::KvIndex;
pub use log::{KvLog, LogIterator};
pub use store::KvStore;
