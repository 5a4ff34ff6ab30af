//! A persistent key/value store library built around a log-structured
//! storage engine: appended records, an in-memory index, dead-byte
//! accounting and online compaction, together with the wire codec and
//! request dispatch of a small key/value server.

mod client;
mod codec;
mod command;
mod engine;
mod errors;
mod index;
mod kv;
mod log;
mod proto;
mod server;
mod sled_engine;
pub mod thread_pool;

pub use client::response_to_result;
pub use command::decode_command;
pub use command::encode_command;
pub use command::Command;
pub use engine::KvsEngine;
pub use errors::KVStoreError;
pub use index::CommandPosition;
pub use kv::KvStore;
pub use kv::MAX_USELESS_SIZE;
pub use log::BufWriterWithPosition;
pub use log::Segment;
pub use proto::decode_request;
pub use proto::decode_response;
pub use proto::encode_request;
pub use proto::encode_response;
pub use proto::Request;
pub use proto::Response;
pub use server::handle_request;
pub use server::judge_engine;
pub use server::unit_response;
pub use server::value_response;
pub use server::EngineType;
pub use server::KvServer;
pub use sled_engine::sled_removed_to_result;
pub use sled_engine::sled_value_to_result;
pub use sled_engine::SledKvsEngine;
