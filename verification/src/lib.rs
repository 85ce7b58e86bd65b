//! Transport layer of a build-cache client.
//!
//! - [`net`]: the address of an endpoint (network address, socket path or
//!   abstract socket name), its text, and the choice of a connector by kind.
//! - [`ip`], [`ip_text`], [`digits`], [`escape`]: the text of network
//!   addresses and of abstract names, with the proofs that parsing undoes
//!   formatting.
//! - [`varint`], [`frame`]: length-delimited framing of messages.
//! - [`connection`]: the duplex stream, and the sending and receiving of one
//!   framed message on it.
//! - [`client`], [`dial`]: the request/response exchange, and connecting
//!   with bounded retry.

pub mod client;
pub mod connection;
pub mod dial;
pub mod digits;
pub mod escape;
pub mod frame;
pub mod ip;
pub mod ip_text;
pub mod net;
pub mod varint;
