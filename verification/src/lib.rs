//! Arkel: a decentralised, S3-style object store.
pub mod api;
pub mod audit;
pub mod bytes;
pub mod cli;
pub mod client;
pub mod codec;
pub mod config;
pub mod dataplane;
pub mod docs;
pub mod gateway;
pub mod identity;
pub mod index;
pub mod json;
pub mod keys;
pub mod laws;
pub mod node;
pub mod order;
pub mod repair;
pub mod storage;
pub mod table;
pub mod text;
