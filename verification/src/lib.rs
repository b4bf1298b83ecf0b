//! Core of an in-memory key/value server speaking the RESP wire protocol.
//!
//! The crate verifies the three subsystems of such a server: the RESP
//! codec (framing byte strings and arrays with CRLF-terminated headers),
//! the RDB snapshot decoder (a binary format with variable-width length
//! prefixes), and the command dispatcher (a spec-tree driven argument
//! parser over a dataset with per-key expiry).  All decoding is done over
//! in-memory byte buffers; reading sockets and files, and the async
//! runtime, stay outside the crate.

use vstd::prelude::*;

pub mod ascii;
pub mod assoc;
pub mod command;
pub mod database;
pub mod num;
pub mod rdb;
pub mod reader;
pub mod resp;

verus! {

/// How a wire-level read or decode can fail: the buffer ended before a
/// complete frame (the caller may supply more bytes and retry), or the
/// bytes cannot be part of any valid frame.
#[derive(Clone, Copy, Debug, PartialEq, Eq, Structural)]
pub enum WireError {
    UnexpectedEof,
    InvalidData,
}

} // verus!
