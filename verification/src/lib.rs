//! An authoritative-override DNS proxy library.
//!
//! The crate holds the verified core of the proxy: the DNS wire codec on a
//! fixed 512-byte buffer, the three-mode host matcher, the configuration
//! dialect parser with recursive imports, the shared runtime state, the
//! per-query resolver decision, and the file-watch change detector.
//! Network and file I/O live outside the library and hand plain values in.

pub mod buffer;
pub mod cli;
pub mod config;
pub mod ip;
pub mod matcher;
pub mod packet;
pub mod qname;
pub mod resolver;
pub mod session;
pub mod state;
pub mod text;
pub mod watch;

use vstd::prelude::*;

verus! {

/// The errors of the wire codec.
#[derive(Clone, Copy, Debug, PartialEq, Eq, Structural)]
pub enum DnsError {
    /// A read or write past position 512.
    EndOfBuffer,
    /// More compression-pointer hops than the decoder allows.
    LimitsExceeded,
    /// A label of more than 63 bytes handed to the name writer.
    LabelTooLong,
}

} // verus!
