//! An EPaxos replica and the storage it runs on, verified with Verus.

pub mod byte_str;
pub mod lex;
pub mod sorted_kv;
pub mod error;
pub mod keys;
pub mod mem_engine;
pub mod namespace;
pub mod prost_wire;
pub mod wire;
pub mod qpaxos;
pub mod codec;
pub mod snapshot;
pub mod replica;
pub mod fixtures;
pub mod service;
