//! Hybrid filesync: a folder replica with a portal web view.
//!
//! The fabric is a dumb pipe. File semantics, chunking, retries and conflict
//! policy live here, as functions over plain values; sockets, files and the
//! clock stay with the program that calls them.

pub mod codec;
pub mod fabric;
pub mod laws;
pub mod pathmap;
pub mod paths;
pub mod portal;
pub mod proto;
pub mod store;
pub mod sync;
pub mod text;
pub mod web;
