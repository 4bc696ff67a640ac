//! The rules of a small container registry: routing, authorization, manifests,
//! uploads, the repository index, garbage collection and retention.

pub mod text;
pub mod number;
pub mod table;
pub mod order;
pub mod digest;
pub mod json;
pub mod config;
pub mod shard;
pub mod storage;
pub mod objectstore;
pub mod ident;
pub mod pending;
pub mod truth;
pub mod cache;
pub mod db;
pub mod gc;
pub mod sweep;
pub mod retention;
pub mod auth;
pub mod oci;
pub mod api;
pub mod ui;
