//! The experimental websocket listener surface. The listener itself is all
//! socket work and runs outside this library; only its error vocabulary lives
//! here.

use vstd::prelude::*;

verus! {

/// What can go wrong while bringing the websocket listener up.
#[derive(Debug, Clone, Copy, PartialEq, Eq, Structural)]
pub enum WsError {
    AddrInUse,
}

impl WsError {
    /// The human-readable description of the error.
    pub fn message(&self) -> (s: String)
        ensures
            s@ == "Address In Use"@,
    {
        "Address In Use".to_owned()
    }
}

pub type WsResult<T> = Result<T, WsError>;

/// A handle to a running websocket listener. Accepting connections is socket
/// work and happens outside this library; the handle carries no state.
pub struct WebsocketServer {
}

} // verus!
