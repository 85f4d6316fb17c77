//! A persistent, log-structured key/value store.
//!
//! The library holds the logic of the store: the record format of the logs
//! and the wire, the key directory that maps each live key to the record
//! that holds its value, replay of the logs on open, compaction, and the
//! decisions of the request server and its client. Reading and writing
//! files and sockets is left to the caller, which hands the library plain
//! bytes and carries out what it returns.
pub mod codec;
pub mod engine;
pub mod error;
mod keydir;
pub mod laws;
pub mod layout;
pub mod server;
pub mod thread_pool;

pub use codec::{deserialize, serialize, RecordParser, Request};
pub use engine::{CommandPos, Compaction, KvStore, KvsEngine, COMPACTION_THRESHOLD};
pub use error::KvsError;
pub use server::{Response, TxMessage};
pub use thread_pool::ThreadPool;
