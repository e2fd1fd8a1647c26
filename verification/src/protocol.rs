//! The protocol between the daemon and its clients (backends, tools).
//!
//! Each message is one line: its JSON text followed by a newline.

use vstd::prelude::*;

use crate::manager;
use crate::session::{Event, EventModel};

verus! {

/// The protocol version, exchanged in the handshake.
pub const VERSION: u32 = 0;

/// A request from a client.
#[derive(Debug, PartialEq)]
pub enum Request {
    /// Checks the connection.
    Ping,
    /// A backend introduces itself.
    Handshake {
        /// The backend's protocol version.
        protocol_version: u32,
        /// The backend's name.
        backend_name: String,
    },
    /// An event that a backend observed.
    Event(Event),
}

/// A request, as a mathematical value.
pub enum RequestModel {
    Ping,
    Handshake { protocol_version: u32, backend_name: Seq<char> },
    Event(EventModel),
}

impl View for Request {
    type V = RequestModel;

    open spec fn view(&self) -> RequestModel {
        match self {
            Request::Ping => RequestModel::Ping,
            Request::Handshake { protocol_version, backend_name } => RequestModel::Handshake {
                protocol_version: *protocol_version,
                backend_name: backend_name@,
            },
            Request::Event(e) => RequestModel::Event(e@),
        }
    }
}

/// A response from the daemon.
#[derive(Debug, PartialEq, Eq, Structural, Clone, Copy)]
pub enum Response {
    /// The answer to [`Request::Ping`].
    Pong,
    /// The answer to [`Request::Handshake`].
    Handshake {
        /// The daemon's protocol version.
        protocol_version: u32,
        /// Whether the daemon accepts the backend.
        is_accepted: bool,
    },
    /// What the session manager did with a [`Request::Event`].
    EventResponse(manager::Response),
}

/// Whether the daemon accepts a backend that speaks `protocol_version`:
/// it does for any version up to its own.
pub open spec fn accepts(protocol_version: u32) -> bool {
    protocol_version <= VERSION
}

/// Whether the daemon accepts a backend that speaks `protocol_version`.
pub fn accepts_version(protocol_version: u32) -> (r: bool)
    ensures
        r == accepts(protocol_version),
{
    protocol_version <= VERSION
}

/// The daemon's answer to a handshake from a backend that speaks `protocol_version`.
pub fn handshake_response(protocol_version: u32) -> (r: Response)
    ensures
        r == (Response::Handshake {
            protocol_version: VERSION,
            is_accepted: accepts(protocol_version),
        }),
{
    Response::Handshake { protocol_version: VERSION, is_accepted: accepts_version(protocol_version) }
}

/// Answers `request`: a ping with a pong, a handshake with the daemon's
/// version and whether it accepts the backend, and an event with what the
/// session manager did with it (at the manager's clock time).
pub fn answer_request<C: manager::Clock>(sm: &mut manager::SessionManager<C>, request: Request) -> (r:
    Response)
    ensures
        match request@ {
            RequestModel::Ping => r == Response::Pong && final(sm)@ == old(sm)@,
            RequestModel::Handshake { protocol_version, .. } => r == (Response::Handshake {
                protocol_version: VERSION,
                is_accepted: accepts(protocol_version),
            }) && final(sm)@ == old(sm)@,
            RequestModel::Event(e) => exists|now: i64|
                final(sm)@ == manager::event_model(old(sm)@, e, now).0 && r == Response::EventResponse(
                    manager::event_model(old(sm)@, e, now).1,
                ),
        },
{
    match request {
        Request::Ping => Response::Pong,
        Request::Handshake { protocol_version, .. } => handshake_response(protocol_version),
        Request::Event(event) => Response::EventResponse(sm.handle_event(event)),
    }
}

/// Whether a text holds no newline, so that it fits in one message line.
pub open spec fn one_line(s: Seq<char>) -> bool {
    !s.contains('\n')
}

/// The line that carries the message text `json`.
pub fn frame_message(json: &str) -> (r: String)
    ensures
        r@ == json@.push('\n'),
{
    let mut r = String::from_str(json);
    crate::text::push_char(&mut r, '\n');
    r
}

/// The message text that a received line carries: the line without its
/// final newline, if it has one.
pub fn message_of_line(line: &str) -> (r: String)
    ensures
        r@ == if line@.len() > 0 && line@.last() == '\n' {
            line@.drop_last()
        } else {
            line@
        },
{
    let n = line.unicode_len();
    if n > 0 && line.get_char(n - 1) == '\n' {
        String::from_str(line.substring_char(0, n - 1))
    } else {
        String::from_str(line)
    }
}

/// Framing a message and reading the line back gives the message again.
pub proof fn framing_round_trip(json: Seq<char>)
    ensures
        json.push('\n').drop_last() == json,
        json.push('\n').len() > 0 && json.push('\n').last() == '\n',
{
    assert(json.push('\n').drop_last() =~= json);
}

} // verus!
