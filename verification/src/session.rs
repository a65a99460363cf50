//! The conversation with one pipe client, as a state machine: the caller
//! performs each read that an action asks for and hands the bytes back;
//! a complete request is handed out to be decoded and answered.
//!
//! A request is a type byte, a 4-byte little-endian length and that many
//! bytes of payload.
use vstd::prelude::*;
use crate::protocol::{lemma_le_bytes_roundtrip, u32_le_bytes};
use crate::usn::le32;

verus! {

/// The requests a client can send, by their type byte.
#[derive(Debug, Clone, Copy, PartialEq, Eq, Structural)]
pub enum RequestKind {
    Ping,
    BuildIndex,
    Search,
    StartUsnMonitoring,
    StopUsnMonitoring,
}

/// The request named by a type byte.
pub open spec fn request_kind_of(t: u8) -> Option<RequestKind> {
    if t == 0 {
        Some(RequestKind::Ping)
    } else if t == 1 {
        Some(RequestKind::BuildIndex)
    } else if t == 2 {
        Some(RequestKind::Search)
    } else if t == 3 {
        Some(RequestKind::StartUsnMonitoring)
    } else if t == 4 {
        Some(RequestKind::StopUsnMonitoring)
    } else {
        None
    }
}

pub fn request_kind(t: u8) -> (r: Option<RequestKind>)
    ensures
        r == request_kind_of(t),
{
    match t {
        0 => Some(RequestKind::Ping),
        1 => Some(RequestKind::BuildIndex),
        2 => Some(RequestKind::Search),
        3 => Some(RequestKind::StartUsnMonitoring),
        4 => Some(RequestKind::StopUsnMonitoring),
        _ => None,
    }
}

/// Where the conversation stands.
#[derive(Debug, Clone, Copy, PartialEq, Eq, Structural)]
pub enum ClientState {
    /// Waiting for the type byte of the next request.
    AwaitType,
    /// Waiting for the 4-byte length of a request of type `msg_type`.
    AwaitLength { msg_type: u8 },
    /// Waiting for the `length` payload bytes of a request.
    AwaitPayload { msg_type: u8, length: usize },
}

/// What the caller does next.
#[derive(Debug)]
pub enum ClientAction {
    /// Read up to this many bytes from the client and report them.
    Read(usize),
    /// Decode `payload` as a request of this kind, answer it, then read the
    /// next type byte.
    Handle { kind: RequestKind, payload: Vec<u8> },
    /// The client closed the connection.
    Disconnected,
    /// The request was cut short or of an unknown type: end the conversation.
    Stop,
}

/// How a conversation starts.
pub fn client_start() -> (r: (ClientState, ClientAction))
    ensures
        r.0 == ClientState::AwaitType,
        r.1 matches ClientAction::Read(n) && n == 1,
{
    (ClientState::AwaitType, ClientAction::Read(1))
}

/// A complete request of type `t` with `payload`: handled when the type is
/// known, otherwise the end.
pub open spec fn dispatched(t: u8, payload: Seq<u8>, r: (ClientState, ClientAction)) -> bool {
    match request_kind_of(t) {
        Some(k) => r.0 == ClientState::AwaitType && (r.1 matches ClientAction::Handle { kind, payload: p }
            && kind == k && p@ == payload),
        None => r.1 is Stop,
    }
}

fn dispatch(t: u8, payload: Vec<u8>) -> (r: (ClientState, ClientAction))
    ensures
        dispatched(t, payload@, r),
{
    match request_kind(t) {
        Some(kind) => (ClientState::AwaitType, ClientAction::Handle { kind, payload }),
        None => (ClientState::AwaitType, ClientAction::Stop),
    }
}

/// The next state and action after the read asked for in `state` returned
/// `data`.
pub open spec fn stepped(state: ClientState, data: Seq<u8>, r: (ClientState, ClientAction)) -> bool {
    match state {
        ClientState::AwaitType => if data.len() == 0 {
            r.1 is Disconnected
        } else {
            r.0 == (ClientState::AwaitLength { msg_type: data[0] }) && (r.1 matches ClientAction::Read(
                n,
            ) && n == 4)
        },
        ClientState::AwaitLength { msg_type } => if data.len() == 0 {
            r.1 is Disconnected
        } else if data.len() < 4 {
            r.1 is Stop
        } else if le32(data, 0) > 0 {
            r.0 == (ClientState::AwaitPayload { msg_type, length: le32(data, 0) as usize }) && (
            r.1 matches ClientAction::Read(n) && n == le32(data, 0))
        } else {
            dispatched(msg_type, Seq::empty(), r)
        },
        ClientState::AwaitPayload { msg_type, length } => if data.len() < length {
            r.1 is Stop
        } else {
            dispatched(msg_type, data.take(length as int), r)
        },
    }
}

/// Advance the conversation with the bytes that the last read returned.
pub fn client_step(state: ClientState, data: &[u8]) -> (r: (ClientState, ClientAction))
    ensures
        stepped(state, data@, r),
{
    match state {
        ClientState::AwaitType => {
            if data.len() == 0 {
                (ClientState::AwaitType, ClientAction::Disconnected)
            } else {
                (ClientState::AwaitLength { msg_type: data[0] }, ClientAction::Read(4))
            }
        },
        ClientState::AwaitLength { msg_type } => {
            if data.len() == 0 {
                (ClientState::AwaitType, ClientAction::Disconnected)
            } else if data.len() < 4 {
                (ClientState::AwaitType, ClientAction::Stop)
            } else {
                let length = (data[0] as u32) + (data[1] as u32) * 0x100 + (data[2] as u32) * 0x1_0000
                    + (data[3] as u32) * 0x100_0000;
                if length > 0 {
                    (
                        ClientState::AwaitPayload { msg_type, length: length as usize },
                        ClientAction::Read(length as usize),
                    )
                } else {
                    dispatch(msg_type, Vec::new())
                }
            }
        },
        ClientState::AwaitPayload { msg_type, length } => {
            if data.len() < length {
                (ClientState::AwaitType, ClientAction::Stop)
            } else {
                let mut payload: Vec<u8> = Vec::new();
                let mut k: usize = 0;
                while k < length
                    invariant
                        k <= length <= data@.len(),
                        payload@ == data@.take(k as int),
                    decreases length - k,
                {
                    payload.push(data[k]);
                    assert(payload@ =~= data@.take(k + 1));
                    k = k + 1;
                }
                dispatch(msg_type, payload)
            }
        },
    }
}

/// A request sent as its type byte, the four little-endian bytes of its
/// length and its payload is handed out whole, with the kind its type names.
pub proof fn law_framed_request_is_handled(
    t: u8,
    payload: Seq<u8>,
    r1: (ClientState, ClientAction),
    r2: (ClientState, ClientAction),
    r3: (ClientState, ClientAction),
)
    requires
        request_kind_of(t) is Some,
        0 < payload.len() <= u32::MAX,
        stepped(ClientState::AwaitType, seq![t], r1),
        stepped(r1.0, u32_le_bytes(payload.len() as u32), r2),
        stepped(r2.0, payload, r3),
    ensures
        r3.0 == ClientState::AwaitType,
        r3.1 matches ClientAction::Handle { kind, payload: p } && kind == request_kind_of(t)->0
            && p@ == payload,
{
    lemma_le_bytes_roundtrip(payload.len() as u32, Seq::empty());
    assert(u32_le_bytes(payload.len() as u32) + Seq::<u8>::empty() == u32_le_bytes(
        payload.len() as u32,
    ));
    assert(payload.take(payload.len() as int) == payload);
}

/// The type bytes of the protocol: 0 is a ping, 1 an indexing request, 2 a
/// search, 3 a request to start journal monitoring and 4 one to stop it;
/// every other byte names no request.  A complete request is handed out
/// with the kind its type byte names.
pub proof fn law_type_bytes(t: u8, length: usize, data: Seq<u8>, r: (ClientState, ClientAction))
    requires
        0 < length <= data.len(),
        stepped(ClientState::AwaitPayload { msg_type: t, length }, data, r),
    ensures
        (t == 0) <==> request_kind_of(t) == Some(RequestKind::Ping),
        (t == 1) <==> request_kind_of(t) == Some(RequestKind::BuildIndex),
        (t == 2) <==> request_kind_of(t) == Some(RequestKind::Search),
        (t == 3) <==> request_kind_of(t) == Some(RequestKind::StartUsnMonitoring),
        (t == 4) <==> request_kind_of(t) == Some(RequestKind::StopUsnMonitoring),
        (t > 4) <==> request_kind_of(t) is None,
        t == 3 ==> (r.1 matches ClientAction::Handle { kind, .. } && kind
            == RequestKind::StartUsnMonitoring),
        t == 4 ==> (r.1 matches ClientAction::Handle { kind, .. } && kind
            == RequestKind::StopUsnMonitoring),
        t > 4 ==> r.1 is Stop,
{
}

} // verus!
