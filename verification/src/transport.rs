//! Transport-level decisions: endpoint resolution from the access token,
//! HTTP status classification, and the life cycle of a streaming
//! connection.
//!
//! The network work itself (the HTTP round trip, the WebSocket handshake,
//! reads and writes) happens outside this crate; the embedding program
//! feeds statuses, payloads and connection events back into the functions
//! here.

use vstd::prelude::*;

verus! {

/// The access token is missing or empty: a fatal configuration error,
/// raised before any network activity.
#[derive(Clone, Copy, Debug, PartialEq, Eq, Structural)]
pub struct ConfigError;

/// A transport-level failure, surfaced to the caller and never retried
/// here.
#[derive(Clone, Copy, Debug, PartialEq, Eq, Structural)]
pub enum TransportError {
    /// The connection or handshake could not be established.
    Connect,
    /// The HTTP response carried a non-success status.
    HttpStatus(u16),
    /// A write on the streaming connection failed or the connection was
    /// closed.
    Write,
    /// A read on the streaming connection failed.
    Read,
}

/// The one-shot HTTP transport endpoint.
pub struct InfuraAPI;

/// The streaming WebSocket transport endpoint.
pub struct InfuraWS;

impl InfuraAPI {
    /// Resolve the HTTP endpoint for a token; an empty token is a
    /// configuration error and no endpoint is produced.
    pub fn get_path(token: &str) -> (res: Result<String, ConfigError>)
        ensures
            token@.len() > 0 ==> (res matches Ok(p) && p@ == "https://mainnet.infura.io/v3/"@
                + token@),
            token@.len() == 0 ==> (res matches Err(e) && e == ConfigError),
    {
        if token.unicode_len() == 0 {
            return Err(ConfigError);
        }
        let mut p = String::from_str("https://mainnet.infura.io/v3/");
        p.append(token);
        Ok(p)
    }
}

impl InfuraWS {
    /// Resolve the WebSocket endpoint for a token; an empty token is a
    /// configuration error and no endpoint is produced.
    pub fn get_ws_path(token: &str) -> (res: Result<String, ConfigError>)
        ensures
            token@.len() > 0 ==> (res matches Ok(p) && p@ == "wss://mainnet.infura.io/ws/v3/"@
                + token@),
            token@.len() == 0 ==> (res matches Err(e) && e == ConfigError),
    {
        if token.unicode_len() == 0 {
            return Err(ConfigError);
        }
        let mut p = String::from_str("wss://mainnet.infura.io/ws/v3/");
        p.append(token);
        Ok(p)
    }
}

/// Whether an HTTP status is a success status.
pub open spec fn spec_status_success(status: u16) -> bool {
    200 <= status < 300
}

/// Classify an HTTP status: success statuses pass, every other status is
/// a transport error carrying the status.
pub fn classify_status(status: u16) -> (res: Result<(), TransportError>)
    ensures
        spec_status_success(status) ==> (res matches Ok(u) && u == ()),
        !spec_status_success(status) ==> (res matches Err(e) && e == TransportError::HttpStatus(
            status,
        )),
{
    if 200 <= status && status < 300 {
        Ok(())
    } else {
        Err(TransportError::HttpStatus(status))
    }
}

/// The life cycle of a streaming connection.
#[derive(Clone, Copy, Debug, PartialEq, Eq, Structural)]
pub enum ConnState {
    /// The handshake is in flight.
    Connecting,
    /// The connection is established; frames may be sent and received.
    Open,
    /// The connection ended with a clean close.
    Closed,
    /// The handshake, a read, or a write failed; terminal.
    Failed,
}

/// An observable event on a streaming connection.
#[derive(Clone, Copy, Debug, PartialEq, Eq, Structural)]
pub enum ConnEvent {
    /// The handshake completed.
    HandshakeOk,
    /// The handshake was rejected or could not complete.
    HandshakeFailed,
    /// One frame arrived.
    FrameReceived,
    /// The peer closed the connection cleanly.
    CleanClose,
    /// A read failed or the stream ended abnormally.
    ReadFailed,
    /// A write failed or was attempted on a closed connection.
    WriteFailed,
}

/// The transition table of the connection life cycle: an open connection
/// keeps delivering frames until a clean close or a failure; both end
/// states are terminal, and no reconnection ever happens here.
pub open spec fn spec_conn_step(s: ConnState, e: ConnEvent) -> ConnState {
    match s {
        ConnState::Connecting => match e {
            ConnEvent::HandshakeOk => ConnState::Open,
            _ => ConnState::Failed,
        },
        ConnState::Open => match e {
            ConnEvent::FrameReceived => ConnState::Open,
            ConnEvent::CleanClose => ConnState::Closed,
            _ => ConnState::Failed,
        },
        ConnState::Closed => ConnState::Closed,
        ConnState::Failed => ConnState::Failed,
    }
}

/// Advance the connection life cycle by one event.
pub fn conn_step(s: ConnState, e: ConnEvent) -> (res: ConnState)
    ensures
        res == spec_conn_step(s, e),
{
    match s {
        ConnState::Connecting => match e {
            ConnEvent::HandshakeOk => ConnState::Open,
            _ => ConnState::Failed,
        },
        ConnState::Open => match e {
            ConnEvent::FrameReceived => ConnState::Open,
            ConnEvent::CleanClose => ConnState::Closed,
            _ => ConnState::Failed,
        },
        ConnState::Closed => ConnState::Closed,
        ConnState::Failed => ConnState::Failed,
    }
}

/// A closed connection stays closed and a failed connection stays failed,
/// whatever else is observed: failure is terminal and must be surfaced,
/// never retried here.
pub proof fn lemma_conn_end_states_terminal(s: ConnState, e: ConnEvent)
    requires
        s == ConnState::Closed || s == ConnState::Failed,
    ensures
        spec_conn_step(s, e) == s,
{
}

/// An open connection keeps delivering frames without changing state, and
/// a clean close ends the stream in the `Closed` state, not in `Failed`.
pub proof fn lemma_open_stream_behaviour()
    ensures
        spec_conn_step(ConnState::Open, ConnEvent::FrameReceived) == ConnState::Open,
        spec_conn_step(ConnState::Open, ConnEvent::CleanClose) == ConnState::Closed,
        spec_conn_step(ConnState::Open, ConnEvent::ReadFailed) == ConnState::Failed,
{
}

} // verus!
