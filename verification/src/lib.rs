//! Asset loading driven by an asset daemon.
//!
//! The loader keeps a table of loads, one per referenced asset, and drives each of them through
//! its life: metadata, dependencies, data, the engine's own loading, hot reload and unloading.

pub mod assets;
pub mod changes;
pub mod channel;
pub mod data;
pub mod fault;
pub mod ids;
pub mod laws;
pub mod metadata;
pub mod model;
pub mod ops;
pub mod requests;
pub mod responses;
pub mod rpc_loader;
pub mod state;
pub mod storage;
pub mod tables;
pub mod walk;
