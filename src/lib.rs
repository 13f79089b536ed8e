//! kvs: a log-structured key-value store.
//!
//! The library holds the engine's logic: the naming of log generations, the
//! record codec, the in-memory index with its write, remove, recovery and
//! compaction rules, and the engine over sled. Reading and writing the files
//! of the log is left to the caller.
pub mod engine;
pub mod error;
pub mod generation;
pub mod kvstore;
pub mod record;
pub mod req_resp;
pub mod sled_kvs_engine;
pub mod thread_pool;

pub use engine::{engine_name, select_engine, EngineKind, KvsEngine};
pub use error::KvsError;
pub use kvstore::{KvStoreReader, KvStoreWriter};
pub use req_resp::{Request, Response};
pub use sled_kvs_engine::SledKvsEngine;
pub use thread_pool::ThreadPool;
