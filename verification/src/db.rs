//! The database representation of sessions, and the options of session queries.

use vstd::prelude::*;

use crate::session::{Session, SessionModel, State, StateModel};

verus! {

/// The sorting order of query results.
#[derive(Debug, Clone, Copy, PartialEq, Eq, Structural)]
pub enum SortOrder {
    /// Smallest or oldest first.
    Ascending,
    /// Largest or newest first.
    Descending,
}

/// Options of a session query: a time range, a limit, an offset, and orders.
#[derive(Debug, Clone)]
pub struct QueryFilter {
    /// Lower bound of the session start (inclusive).
    pub from: Option<i64>,
    /// Upper bound of the session end (inclusive).
    pub to: Option<i64>,
    /// Maximum number of sessions to return.
    pub limit: Option<i64>,
    /// Number of sessions to skip.
    pub offset: Option<i64>,
    /// Order by duration (end - start).
    pub sort_by_duration: Option<SortOrder>,
    /// Order by start time.
    pub sort_by_start: Option<SortOrder>,
}

impl Default for QueryFilter {
    fn default() -> (r: Self)
        ensures
            r.from is None,
            r.to is None,
            r.limit is None,
            r.offset is None,
            r.sort_by_duration is None,
            r.sort_by_start is None,
    {
        QueryFilter {
            from: None,
            to: None,
            limit: None,
            offset: None,
            sort_by_duration: None,
            sort_by_start: None,
        }
    }
}

/// The name under which the query passes an order by duration.
pub open spec fn duration_key(o: Option<SortOrder>) -> Option<Seq<char>> {
    match o {
        Some(SortOrder::Ascending) => Some("duration_asc"@),
        Some(SortOrder::Descending) => Some("duration_desc"@),
        None => None,
    }
}

/// The name under which the query passes an order by start time.
pub open spec fn start_key(o: Option<SortOrder>) -> Option<Seq<char>> {
    match o {
        Some(SortOrder::Ascending) => Some("start_asc"@),
        Some(SortOrder::Descending) => Some("start_desc"@),
        None => None,
    }
}

/// The view of an optional string slice.
pub open spec fn opt_str_view(o: Option<&str>) -> Option<Seq<char>> {
    match o {
        Some(s) => Some(s@),
        None => None,
    }
}

impl QueryFilter {
    /// The filter of the sessions within a time range: those that start at
    /// `from` or later and end at `to` or earlier.
    pub fn for_range(from: i64, to: i64) -> (r: Self)
        ensures
            r.from == Some(from),
            r.to == Some(to),
            r.limit is None,
            r.offset is None,
            r.sort_by_duration is None,
            r.sort_by_start is None,
    {
        QueryFilter { from: Some(from), to: Some(to), ..QueryFilter::default() }
    }

    /// The filter of the `n` most recent sessions, newest first.
    pub fn for_last(n: i64) -> (r: Self)
        ensures
            r.from is None,
            r.to is None,
            r.limit == Some(n),
            r.offset is None,
            r.sort_by_duration is None,
            r.sort_by_start == Some(SortOrder::Descending),
    {
        QueryFilter {
            limit: Some(n),
            sort_by_start: Some(SortOrder::Descending),
            ..QueryFilter::default()
        }
    }

    /// The names of the two orders, as the query expects them.
    pub fn sort_keys(&self) -> (r: (Option<&'static str>, Option<&'static str>))
        ensures
            opt_str_view(r.0) == duration_key(self.sort_by_duration),
            opt_str_view(r.1) == start_key(self.sort_by_start),
    {
        let d = match self.sort_by_duration {
            Some(SortOrder::Ascending) => Some("duration_asc"),
            Some(SortOrder::Descending) => Some("duration_desc"),
            None => None,
        };
        let s = match self.sort_by_start {
            Some(SortOrder::Ascending) => Some("start_asc"),
            Some(SortOrder::Descending) => Some("start_desc"),
            None => None,
        };
        (d, s)
    }
}

/// The database row of a session.
///
/// `app_id` is only `Some` for an active session, and `workspace` is always
/// `None` for an idle one (an active one may have no workspace).
#[derive(Debug)]
pub struct SessionSql {
    /// Start time.
    pub start: i64,
    /// End time.
    pub end: i64,
    /// Whether the session is active.
    pub is_active: bool,
    /// Application id of an active session.
    pub app_id: Option<String>,
    /// Workspace of an active session.
    pub workspace: Option<i64>,
}

/// A database row, as a mathematical value.
pub struct SessionSqlModel {
    pub start: i64,
    pub end: i64,
    pub is_active: bool,
    pub app_id: Option<Seq<char>>,
    pub workspace: Option<i64>,
}

impl View for SessionSql {
    type V = SessionSqlModel;

    open spec fn view(&self) -> SessionSqlModel {
        SessionSqlModel {
            start: self.start,
            end: self.end,
            is_active: self.is_active,
            app_id: match self.app_id {
                Some(a) => Some(a@),
                None => None,
            },
            workspace: self.workspace,
        }
    }
}

/// The row that stores a session.
pub open spec fn row_of(s: SessionModel) -> SessionSqlModel {
    match s.state {
        StateModel::Active { app_id, workspace } => SessionSqlModel {
            start: s.start,
            end: s.end,
            is_active: true,
            app_id: Some(app_id),
            workspace: match workspace {
                Some(w) => Some(w as i64),
                None => None,
            },
        },
        StateModel::Idle => SessionSqlModel {
            start: s.start,
            end: s.end,
            is_active: false,
            app_id: None,
            workspace: None,
        },
    }
}

/// The session that a row stores (an active row must carry an application id).
pub open spec fn session_of(r: SessionSqlModel) -> SessionModel {
    if r.is_active {
        SessionModel {
            start: r.start,
            end: r.end,
            state: StateModel::Active {
                app_id: r.app_id->0,
                workspace: match r.workspace {
                    Some(w) => Some(w as i32),
                    None => None,
                },
            },
        }
    } else {
        SessionModel { start: r.start, end: r.end, state: StateModel::Idle }
    }
}

/// Whether a row is one that a session can be stored as.
pub open spec fn row_is_canonical(r: SessionSqlModel) -> bool {
    if r.is_active {
        &&& r.app_id is Some
        &&& r.workspace matches Some(w) ==> i32::MIN <= w <= i32::MAX
    } else {
        r.app_id is None && r.workspace is None
    }
}

impl vstd::std_specs::convert::FromSpecImpl<Session> for SessionSql {
    open spec fn obeys_from_spec() -> bool {
        true
    }

    open spec fn from_spec(session: Session) -> SessionSql {
        match session.state {
            State::Active { app_id, workspace } => SessionSql {
                start: session.start,
                end: session.end,
                is_active: true,
                app_id: Some(app_id),
                workspace: match workspace {
                    Some(w) => Some(w as i64),
                    None => None,
                },
            },
            State::Idle => SessionSql {
                start: session.start,
                end: session.end,
                is_active: false,
                app_id: None,
                workspace: None,
            },
        }
    }
}

impl From<Session> for SessionSql {
    /// The row that stores `session`.
    fn from(session: Session) -> (r: Self) {
        match session.state {
            State::Active { app_id, workspace } => SessionSql {
                start: session.start,
                end: session.end,
                is_active: true,
                app_id: Some(app_id),
                workspace: match workspace {
                    Some(w) => Some(w as i64),
                    None => None,
                },
            },
            State::Idle => SessionSql {
                start: session.start,
                end: session.end,
                is_active: false,
                app_id: None,
                workspace: None,
            },
        }
    }
}

impl SessionSql {
    /// The row that stores `session`.
    pub fn from_session(session: Session) -> (r: SessionSql)
        ensures
            r@ == row_of(session@),
    {
        SessionSql::from(session)
    }
}

impl Session {
    /// The session that the row `value` stores; a workspace outside the
    /// range of `i32` is truncated to it.
    pub fn from_sql(value: SessionSql) -> (r: Session)
        requires
            value.is_active ==> value.app_id is Some,
        ensures
            r@ == session_of(value@),
    {
        if value.is_active {
            let app_id = match value.app_id {
                Some(a) => a,
                None => String::new(),
            };
            Session {
                start: value.start,
                end: value.end,
                state: State::Active {
                    app_id,
                    workspace: match value.workspace {
                        Some(i) => Some(i as i32),
                        None => None,
                    },
                },
            }
        } else {
            Session { start: value.start, end: value.end, state: State::Idle }
        }
    }
}

/// Storing a session and reading it back gives the same session.
pub proof fn session_row_round_trip(s: SessionModel)
    ensures
        session_of(row_of(s)) == s,
        row_is_canonical(row_of(s)),
{
}

/// Reading a canonical row and storing the session again gives the same row.
pub proof fn row_session_round_trip(r: SessionSqlModel)
    requires
        row_is_canonical(r),
    ensures
        row_of(session_of(r)) == r,
{
}

} // verus!
