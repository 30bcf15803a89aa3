//! A small in-memory key-value server core speaking the RESP wire format.
//!
//! The crate is organised around three verified pieces:
//! - `resp`: the frame model and the binary-safe RESP codec, proved to
//!   round-trip every well-formed frame;
//! - `backend`: the in-memory store with string, hash and set keyspaces;
//! - `cmd` and `network`: the typed command vocabulary, the dispatcher from
//!   request frames to replies, and the buffer-level codec adapter.
#![allow(unused_imports)]

pub mod backend;
pub mod cmd;
pub mod network;
pub mod resp;
