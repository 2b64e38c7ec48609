//! Core of a line-oriented broadcast server.
//!
//! Clients connect over a stream transport and exchange newline-terminated
//! UTF-8 text. This crate holds the verified heart of the server: the client
//! registry, the FIFO event queue, the exact wire lines, and the dispatch
//! rules that turn events into sends. The surrounding process (socket accept,
//! non-blocking reads, writes, the pacing sleep) lives outside and feeds the
//! core plain values.

pub mod events;
pub mod laws;
pub mod server;
pub mod text;
