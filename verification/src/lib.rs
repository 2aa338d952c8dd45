//! An in-memory key-value server core speaking a Redis-style wire protocol.
//!
//! The library holds the verified request pipeline: the wire codec that
//! parses and serializes protocol values, the command registry that routes a
//! command name to its handler, the per-request execution context carrying a
//! deadline and a retry budget, and the key-value store that the handlers
//! read and write.  Transport, sockets and task scheduling live outside the
//! library and hand it plain byte buffers.

pub mod built_info;
pub mod bytes;
pub mod codec;
pub mod commands;
pub mod context;
pub mod decimal;
pub mod error;
pub mod registry;
pub mod store;
pub mod value;
