//! The lifecycle of one client connection, as decisions: the caller performs
//! the returned action and reports what happened as the next event.
use vstd::prelude::*;

verus! {

/// Where a connection is.
#[derive(Debug, PartialEq, Eq, Structural, Clone, Copy)]
pub enum Conn {
    /// Waiting for the handshake and for a backend.
    Handshaking,
    /// Attached as `client` of `backend`.
    Attached { backend: u64, client: u64 },
    /// Closed; nothing more happens.
    Closed,
}

/// What happened on the connection.
#[derive(Debug, PartialEq, Eq, Structural, Clone, Copy)]
pub enum ConnEvent {
    /// The handshake was read and the connection attached to a backend.
    Joined { backend: u64, client: u64 },
    /// The handshake was malformed or missing, or the backend could not start.
    Refused,
    /// The socket reached end of stream or failed, in either direction.
    SocketClosed,
    /// The backend went away.
    ConnectionLost,
}

/// What to do next.
#[derive(Debug, PartialEq, Eq, Structural, Clone, Copy)]
pub enum ConnAction {
    Nothing,
    /// Detach from the router, then close the socket.
    DetachAndClose { backend: u64, client: u64 },
    /// Close the socket.
    Close,
}

pub open spec fn conn_next(c: Conn, e: ConnEvent) -> (Conn, ConnAction) {
    match c {
        Conn::Handshaking => match e {
            ConnEvent::Joined { backend, client } => (Conn::Attached { backend, client }, ConnAction::Nothing),
            _ => (Conn::Closed, ConnAction::Close),
        },
        Conn::Attached { backend, client } => match e {
            ConnEvent::SocketClosed | ConnEvent::ConnectionLost => (
                Conn::Closed,
                ConnAction::DetachAndClose { backend, client },
            ),
            _ => (c, ConnAction::Nothing),
        },
        Conn::Closed => (Conn::Closed, ConnAction::Nothing),
    }
}

/// Decides the next state and action of a connection.
pub fn conn_step(c: Conn, e: ConnEvent) -> (r: (Conn, ConnAction))
    ensures
        r == conn_next(c, e),
{
    match c {
        Conn::Handshaking => match e {
            ConnEvent::Joined { backend, client } => (Conn::Attached { backend, client }, ConnAction::Nothing),
            _ => (Conn::Closed, ConnAction::Close),
        },
        Conn::Attached { backend, client } => match e {
            ConnEvent::SocketClosed | ConnEvent::ConnectionLost => (
                Conn::Closed,
                ConnAction::DetachAndClose { backend, client },
            ),
            _ => (c, ConnAction::Nothing),
        },
        Conn::Closed => (Conn::Closed, ConnAction::Nothing),
    }
}

/// How many detaches a run of events causes from state `c`.
pub open spec fn detaches(c: Conn, es: Seq<ConnEvent>) -> nat
    decreases es.len(),
{
    if es.len() == 0 {
        0
    } else {
        let (n, a) = conn_next(c, es[0]);
        (if a is DetachAndClose { 1nat } else { 0nat }) + detaches(n, es.drop_first())
    }
}

/// The state after a run of events.
pub open spec fn conn_run(c: Conn, es: Seq<ConnEvent>) -> Conn
    decreases es.len(),
{
    if es.len() == 0 {
        c
    } else {
        conn_run(conn_next(c, es[0]).0, es.drop_first())
    }
}

proof fn lemma_closed_quiet(es: Seq<ConnEvent>)
    ensures
        detaches(Conn::Closed, es) == 0,
        conn_run(Conn::Closed, es) == Conn::Closed,
    decreases es.len(),
{
    if es.len() > 0 {
        lemma_closed_quiet(es.drop_first());
    }
}

/// A connection detaches at most once, whatever happens to it; one that
/// attached and is closed has detached exactly once.
pub proof fn lemma_detach_once(c: Conn, es: Seq<ConnEvent>)
    ensures
        detaches(c, es) <= 1,
        c is Attached && conn_run(c, es) == Conn::Closed ==> detaches(c, es) == 1,
    decreases es.len(),
{
    if es.len() > 0 {
        let (n, a) = conn_next(c, es[0]);
        lemma_detach_once(n, es.drop_first());
        if a is DetachAndClose || c is Closed || n is Closed {
            lemma_closed_quiet(es.drop_first());
        }
    }
}

} // verus!
