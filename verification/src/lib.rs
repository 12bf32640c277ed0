pub mod codec;
pub mod engine_file;
pub mod engines;
pub mod error;
pub mod gens;
pub mod kv;
pub mod protocol;
pub mod server;
pub mod text;
pub mod thread_pool;

pub use engines::{KvsEngine, SledKvsEngine};
pub use error::KvsError;
pub use kv::KvStore;
pub use server::KvsServer;
pub use thread_pool::ThreadPool;
