//! A single-process, backpressure-safe connection multiplexer for
//! newline-delimited text frames.
//!
//! The crate has three parts: a framing codec that turns a byte stream into
//! discrete text frames and back ([`lines`]), the connection-management
//! service whose event loop owns every piece of per-connection state
//! ([`service`]), and a small experimental websocket listener surface
//! ([`websockets`]). The service is a pure state machine here: the
//! surrounding process performs the socket work and feeds events in.

pub mod lines;
pub mod service;
pub mod websockets;
