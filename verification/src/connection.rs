//! What the server knows of an open connection.
use vstd::prelude::*;

verus! {

/// How long a connection may stay idle: thirty seconds, in nanoseconds.
pub const REQUEST_TIMEOUT: u128 = 30_000_000_000;

/// An open connection.
pub struct Connection {
    pub last_activity: u128,
    pub buffer: Vec<u8>,
    pub chunked: bool,
    pub content_length: Option<usize>,
    pub request_complete: bool,
    pub server_idx: usize,
}

impl Connection {
    /// A connection opened at `now`.
    pub fn new(now: u128) -> (r: Connection)
        ensures
            r.last_activity == now,
            r.buffer@ == Seq::<u8>::empty(),
            !r.chunked,
            r.content_length is None,
            !r.request_complete,
            r.server_idx == 0,
    {
        Connection {
            last_activity: now,
            buffer: Vec::new(),
            chunked: false,
            content_length: None,
            request_complete: false,
            server_idx: 0,
        }
    }

    /// The connection has been idle for longer than the time limit.
    pub open spec fn is_idle(self, now: u128) -> bool {
        now - self.last_activity > REQUEST_TIMEOUT
    }

    /// Tells whether the connection has been idle for longer than the time limit.
    pub fn timed_out(&self, now: u128) -> (b: bool)
        ensures
            b == self.is_idle(now),
    {
        self.last_activity <= now && now - self.last_activity > REQUEST_TIMEOUT
    }
}

/// What is known of a file descriptor that has become ready.
#[derive(Debug, PartialEq, Eq, Copy, Clone, Structural)]
pub struct Readiness {
    pub readable: bool,
    pub error: bool,
    pub hangup: bool,
}

/// What to do about a file descriptor that has become ready.
#[derive(Debug, PartialEq, Eq, Copy, Clone, Structural)]
pub enum Dispatch {
    /// Accept a connection from a listener.
    Accept,
    /// Close a connection.
    Remove,
    /// Read from a connection.
    Read,
    /// Nothing.
    Ignore,
}

/// How reading from a connection ended.
pub enum ReadOutcome {
    /// Bytes have come in; none where the client has closed the connection.
    Data(Vec<u8>),
    /// There is nothing to read yet.
    WouldBlock,
    /// Reading failed.
    Failed,
}

} // verus!
