//! The decisions of the transport listeners.
//!
//! The broker is transport-agnostic. Persistent connections (TCP and Unix
//! sockets) carry newline-delimited JSON; the HTTP surface answers one request
//! at a time. With an auth token configured, a connection must present it
//! first, and an HTTP caller must send it along.

pub mod admin;
pub mod http;
pub mod stream;
