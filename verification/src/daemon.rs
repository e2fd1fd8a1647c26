//! The daemon's decisions: what to store after each tick.

use vstd::prelude::*;

use crate::db::{row_of, session_of, session_row_round_trip, SessionSql, SessionSqlModel};
use crate::manager::{event_model, Clock, Response, SessionManager};
use crate::session::{Event, EventModel, Session, SessionModel};

verus! {

/// What the daemon does to its database.
#[derive(Debug)]
pub enum StoreAction {
    /// Append this row.
    Insert(SessionSql),
    /// Overwrite the most recent row with this one.
    UpdateLast(SessionSql),
    /// Nothing to store.
    Nothing,
}

/// A store action, as a mathematical value.
pub enum StoreActionModel {
    Insert(SessionSqlModel),
    UpdateLast(SessionSqlModel),
    Nothing,
}

impl View for StoreAction {
    type V = StoreActionModel;

    open spec fn view(&self) -> StoreActionModel {
        match self {
            StoreAction::Insert(r) => StoreActionModel::Insert(r@),
            StoreAction::UpdateLast(r) => StoreActionModel::UpdateLast(r@),
            StoreAction::Nothing => StoreActionModel::Nothing,
        }
    }
}

/// What to store after the manager answered `response`, `last` being its
/// last saved session: a new row when a session was appended, the last
/// row again when it was merged, nothing otherwise.
pub open spec fn action_for(response: Response, last: Option<SessionModel>) -> StoreActionModel {
    match (response, last) {
        (Response::Flushed { merged }, Some(s)) => if merged {
            StoreActionModel::UpdateLast(row_of(s))
        } else {
            StoreActionModel::Insert(row_of(s))
        },
        _ => StoreActionModel::Nothing,
    }
}

/// The last of a sequence of sessions, if any.
pub open spec fn last_of(s: Seq<SessionModel>) -> Option<SessionModel> {
    if s.len() > 0 {
        Some(s.last())
    } else {
        None
    }
}

/// Only a flush stores anything: every other response, and a flush with no
/// saved session, stores nothing; an appended session is inserted as a new
/// row and a merged one overwrites the last row; and the row stored reads
/// back as the last saved session.
pub proof fn only_flushes_are_stored(response: Response, last: Option<SessionModel>)
    ensures
        !(response is Flushed) ==> action_for(response, last) == StoreActionModel::Nothing,
        last is None ==> action_for(response, last) == StoreActionModel::Nothing,
        response == (Response::Flushed { merged: false }) && last is Some ==> (action_for(
            response,
            last,
        ) matches StoreActionModel::Insert(row) && session_of(row) == last->0),
        response == (Response::Flushed { merged: true }) && last is Some ==> (action_for(
            response,
            last,
        ) matches StoreActionModel::UpdateLast(row) && session_of(row) == last->0),
{
    if let Some(s) = last {
        session_row_round_trip(s);
    }
}

/// The store action for `response`, `last` being the last saved session.
pub fn store_action(response: Response, last: Option<&Session>) -> (r: StoreAction)
    ensures
        r@ == action_for(
            response,
            match last {
                Some(s) => Some(s@),
                None => None,
            },
        ),
{
    match (response, last) {
        (Response::Flushed { merged }, Some(s)) => {
            let row = SessionSql::from_session(s.duplicate());
            if merged {
                StoreAction::UpdateLast(row)
            } else {
                StoreAction::Insert(row)
            }
        },
        _ => StoreAction::Nothing,
    }
}

/// Sends a tick to the manager and tells what the database should store.
pub fn tick(sm: &mut SessionManager<impl Clock>) -> (r: StoreAction)
    ensures
        exists|now: i64|
            final(sm)@ == (#[trigger] event_model(old(sm)@, EventModel::Tick, now)).0 && r@
                == action_for(
                event_model(old(sm)@, EventModel::Tick, now).1,
                last_of(event_model(old(sm)@, EventModel::Tick, now).0.sessions),
            ),
{
    let response = sm.handle_event(Event::Tick);
    let sessions = sm.sessions();
    let n = sessions.len();
    let last = if n > 0 {
        Some(&sessions[n - 1])
    } else {
        None
    };
    store_action(response, last)
}

} // verus!
