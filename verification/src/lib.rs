//! A generic entity cache-and-query layer: a key/value cache store with
//! per-key TTL, tag and prefix bulk operations, pluggable invalidation
//! strategies (immediate, TTL, manual, tagged, cascade), a filter/sort/
//! pagination query engine, and a gateway that orchestrates the cache-aside
//! read path, write-path invalidation and query-result caching.
//!
//! Persistence, wire serialization and the cache backend transport are
//! external collaborators: the library computes over plain values and the
//! surrounding application performs the I/O.

pub mod cache;
pub mod config;
pub mod crud;
pub mod entity;
pub mod errors;
pub mod gateway;
pub mod invalidation;
pub mod query;
pub mod text;
