//! An in-memory key-value store with string values, bounded capacity under
//! LRU eviction, lazy TTL expiry, and snapshot persistence, together with
//! the RESP and HTTP request decoders and response encoders that drive it.

pub mod commands;
pub mod config;
pub mod curl;
pub mod db;
pub mod executor;
pub mod parser;
pub mod protocol;
pub mod resp;
pub mod text;
