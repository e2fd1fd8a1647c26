//! Time statistics over sessions, and grouping of sessions by rules.

use vstd::prelude::*;

use crate::session::{sessions_view, Session, SessionModel, State, StateModel};

verus! {

/// How long a session lasted.
pub open spec fn duration(s: SessionModel) -> int {
    s.end - s.start
}

/// The total duration of the sessions whose state satisfies `p`.
pub open spec fn time_where(s: Seq<SessionModel>, p: spec_fn(StateModel) -> bool) -> int
    decreases s.len(),
{
    if s.len() == 0 {
        0
    } else {
        time_where(s.drop_last(), p) + if p(s.last().state) {
            duration(s.last())
        } else {
            0
        }
    }
}

/// Every state.
pub open spec fn any_state() -> spec_fn(StateModel) -> bool {
    |st: StateModel| true
}

/// The active states.
pub open spec fn active_state() -> spec_fn(StateModel) -> bool {
    |st: StateModel| st is Active
}

/// The idle state.
pub open spec fn idle_state() -> spec_fn(StateModel) -> bool {
    |st: StateModel| st is Idle
}

/// The active states of application `app`.
pub open spec fn app_state(app: Seq<char>) -> spec_fn(StateModel) -> bool {
    |st: StateModel| st matches StateModel::Active { app_id, .. } && app_id == app
}

/// The one state `st0`.
pub open spec fn one_state(st0: StateModel) -> spec_fn(StateModel) -> bool {
    |st: StateModel| st == st0
}

/// Whether a value fits in an `i64`.
pub open spec fn fits_i64(x: int) -> bool {
    i64::MIN <= x <= i64::MAX
}

/// Summing the durations of the sessions whose state satisfies `p`, in order,
/// never leaves the range of `i64`: neither a duration nor a running total.
pub open spec fn sums_fit(s: Seq<SessionModel>, p: spec_fn(StateModel) -> bool) -> bool {
    &&& forall|i: int| 0 <= i < s.len() && p(s[i].state) ==> fits_i64(#[trigger] duration(s[i]))
    &&& forall|k: int| 0 <= k <= s.len() ==> fits_i64(#[trigger] time_where(s.take(k), p))
}

/// Every duration fits in an `i64`, and so does every running total of the
/// durations of one state.
pub open spec fn state_sums_fit(s: Seq<SessionModel>) -> bool {
    &&& forall|i: int| 0 <= i < s.len() ==> fits_i64(#[trigger] duration(s[i]))
    &&& forall|k: int, st: StateModel|
        0 <= k <= s.len() ==> fits_i64(#[trigger] time_where(s.take(k), one_state(st)))
}

/// The distinct states of the sessions, in the order of their first appearance.
pub open spec fn distinct_states(s: Seq<SessionModel>) -> Seq<StateModel>
    decreases s.len(),
{
    if s.len() == 0 {
        Seq::empty()
    } else {
        let d = distinct_states(s.drop_last());
        if d.contains(s.last().state) {
            d
        } else {
            d.push(s.last().state)
        }
    }
}

/// The states of a sequence of (state, time) entries.
pub open spec fn entry_states(e: Seq<(State, i64)>) -> Seq<StateModel> {
    e.map_values(|x: (State, i64)| x.0@)
}

proof fn lemma_take_step(s: Seq<SessionModel>, i: int)
    requires
        0 <= i < s.len(),
    ensures
        s.take(i + 1).drop_last() == s.take(i),
        s.take(i + 1).last() == s[i],
{
    assert(s.take(i + 1).drop_last() =~= s.take(i));
}

/// Every duration of an active session fits in an `i64`, and so does every
/// running total of the time of one application.
pub open spec fn app_sums_fit(s: Seq<SessionModel>) -> bool {
    &&& forall|i: int| 0 <= i < s.len() && s[i].state is Active ==> fits_i64(#[trigger] duration(s[i]))
    &&& forall|k: int, app: Seq<char>|
        0 <= k <= s.len() ==> fits_i64(#[trigger] time_where(s.take(k), app_state(app)))
}

/// The distinct application ids of the active sessions, in the order of
/// their first appearance.
pub open spec fn distinct_apps(s: Seq<SessionModel>) -> Seq<Seq<char>>
    decreases s.len(),
{
    if s.len() == 0 {
        Seq::empty()
    } else {
        let d = distinct_apps(s.drop_last());
        match s.last().state {
            StateModel::Active { app_id, .. } => if d.contains(app_id) {
                d
            } else {
                d.push(app_id)
            },
            StateModel::Idle => d,
        }
    }
}

/// The application ids of a sequence of (name, time) entries.
pub open spec fn entry_names(e: Seq<(String, i64)>) -> Seq<Seq<char>> {
    e.map_values(|x: (String, i64)| x.0@)
}

/// The per-application totals list each application once: the distinct
/// application ids hold no id twice.
pub proof fn apps_listed_once(s: Seq<SessionModel>)
    ensures
        distinct_apps(s).no_duplicates(),
    decreases s.len(),
{
    if s.len() > 0 {
        apps_listed_once(s.drop_last());
    }
}

/// An application that no session has accounts for no time.
proof fn lemma_absent_app_no_time(s: Seq<SessionModel>, app: Seq<char>)
    requires
        !distinct_apps(s).contains(app),
    ensures
        time_where(s, app_state(app)) == 0,
    decreases s.len(),
{
    if s.len() > 0 {
        let d = distinct_apps(s.drop_last());
        if d.contains(app) {
            let k = choose|k: int| 0 <= k < d.len() && d[k] == app;
            assert(distinct_apps(s)[k] == app);
        }
        if s.last().state matches StateModel::Active { app_id, .. } && app_id == app {
            if !d.contains(app) {
                assert(distinct_apps(s)[d.len() as int] == app);
            }
        }
        lemma_absent_app_no_time(s.drop_last(), app);
    }
}

/// The index of the entry named `app`, if there is one.
fn find_name(entries: &Vec<(String, i64)>, app: &String) -> (r: Option<usize>)
    ensures
        match r {
            Some(j) => j < entries@.len() && entries@[j as int].0@ == app@,
            None => forall|k: int| 0 <= k < entries@.len() ==> entries@[k].0@ != app@,
        },
{
    let mut j: usize = 0;
    while j < entries.len()
        invariant
            j <= entries@.len(),
            forall|k: int| 0 <= k < j ==> entries@[k].0@ != app@,
        decreases entries@.len() - j,
    {
        if entries[j].0 == *app {
            return Some(j);
        }
        j = j + 1;
    }
    None
}

/// The sum of the absolute durations of the sessions.
pub open spec fn abs_total(s: Seq<SessionModel>) -> int
    decreases s.len(),
{
    if s.len() == 0 {
        0
    } else {
        abs_total(s.drop_last()) + if duration(s.last()) >= 0 {
            duration(s.last())
        } else {
            -duration(s.last())
        }
    }
}

proof fn lemma_time_bounded(s: Seq<SessionModel>, p: spec_fn(StateModel) -> bool)
    ensures
        -abs_total(s) <= time_where(s, p) <= abs_total(s),
        abs_total(s) >= 0,
    decreases s.len(),
{
    if s.len() > 0 {
        lemma_time_bounded(s.drop_last(), p);
    }
}

proof fn lemma_abs_total_prefix(s: Seq<SessionModel>, k: int)
    requires
        0 <= k <= s.len(),
    ensures
        abs_total(s.take(k)) <= abs_total(s),
    decreases s.len() - k,
{
    if k < s.len() {
        lemma_abs_total_prefix(s, k + 1);
        lemma_take_step(s, k);
    } else {
        assert(s.take(k) =~= s);
    }
}

proof fn lemma_duration_bounded(s: Seq<SessionModel>, i: int)
    requires
        0 <= i < s.len(),
    ensures
        -abs_total(s) <= duration(s[i]) <= abs_total(s),
    decreases s.len(),
{
    lemma_time_bounded(s.drop_last(), any_state());
    if i < s.len() - 1 {
        lemma_duration_bounded(s.drop_last(), i);
    }
}

/// Small absolute durations make every statistic fit: when all durations
/// together stay within `i64`, so does every running total of any selection.
pub proof fn small_durations_fit(s: Seq<SessionModel>, p: spec_fn(StateModel) -> bool)
    requires
        abs_total(s) <= i64::MAX,
    ensures
        sums_fit(s, p),
{
    assert forall|i: int| 0 <= i < s.len() && p(s[i].state) implies fits_i64(#[trigger] duration(s[i])) by {
        lemma_duration_bounded(s, i);
    }
    assert forall|k: int| 0 <= k <= s.len() implies fits_i64(#[trigger] time_where(s.take(k), p)) by {
        lemma_abs_total_prefix(s, k);
        lemma_time_bounded(s.take(k), p);
    }
}

/// Time statistics over a list of sessions.
pub struct SessionAnalytics {
    sessions: Vec<Session>,
}

impl View for SessionAnalytics {
    type V = Seq<SessionModel>;

    closed spec fn view(&self) -> Seq<SessionModel> {
        sessions_view(self.sessions@)
    }
}

impl SessionAnalytics {
    /// Creates the statistics of `sessions`.
    pub fn new(sessions: Vec<Session>) -> (r: Self)
        ensures
            r@ == sessions_view(sessions@),
    {
        SessionAnalytics { sessions }
    }

    /// Sums the durations of the sessions whose state `selects` picks.
    fn sum_selected(&self, which: u8, target: &String) -> (r: i64)
        requires
            which <= 2,
            sums_fit(self@, Self::selector(which, target@)),
        ensures
            r == time_where(self@, Self::selector(which, target@)),
    {
        let ghost s = self@;
        let ghost p = Self::selector(which, target@);
        let mut counter: i64 = 0;
        let mut i: usize = 0;
        while i < self.sessions.len()
            invariant
                s == self@,
                p == Self::selector(which, target@),
                which <= 2,
                sums_fit(s, p),
                i <= s.len(),
                counter == time_where(s.take(i as int), p),
            decreases s.len() - i,
        {
            let x = &self.sessions[i];
            assert(s[i as int] == x@);
            proof {
                lemma_take_step(s, i as int);
            }
            let selected = match &x.state {
                State::Active { app_id, .. } => which == 0 || (which == 1 && *app_id == *target),
                State::Idle => which == 2,
            };
            assert(selected == p(s[i as int].state));
            if selected {
                assert(fits_i64(duration(s[i as int])));
                assert(fits_i64(time_where(s.take(i + 1), p)));
                counter = counter + (x.end - x.start);
            }
            i = i + 1;
        }
        assert(s.take(s.len() as int) =~= s);
        counter
    }

    /// The three selections that the sums use.
    pub open spec fn selector(which: u8, target: Seq<char>) -> spec_fn(StateModel) -> bool {
        if which == 0 {
            active_state()
        } else if which == 1 {
            app_state(target)
        } else {
            idle_state()
        }
    }

    /// The total time spent in applications (idle time excluded).
    pub fn total_screen_time(&self) -> (r: i64)
        requires
            sums_fit(self@, active_state()),
        ensures
            r == time_where(self@, active_state()),
    {
        let none = String::new();
        self.sum_selected(0, &none)
    }

    /// The time spent in application `target_app_id`.
    pub fn screen_time_app(&self, target_app_id: String) -> (r: i64)
        requires
            sums_fit(self@, app_state(target_app_id@)),
        ensures
            r == time_where(self@, app_state(target_app_id@)),
    {
        self.sum_selected(1, &target_app_id)
    }

    /// The total idle time.
    pub fn idle_time(&self) -> (r: i64)
        requires
            sums_fit(self@, idle_state()),
        ensures
            r == time_where(self@, idle_state()),
    {
        let none = String::new();
        self.sum_selected(2, &none)
    }

    /// Whether the absolute durations of all sessions add up to at most
    /// `i64::MAX`; then every statistic of these sessions can be computed.
    pub fn totals_fit(&self) -> (r: bool)
        ensures
            r == (abs_total(self@) <= i64::MAX),
            r ==> sums_fit(self@, active_state()) && sums_fit(self@, idle_state())
                && state_sums_fit(self@) && app_sums_fit(self@),
            r ==> forall|app: Seq<char>| sums_fit(self@, #[trigger] app_state(app)),
    {
        let ghost s = self@;
        let mut acc: i128 = 0;
        let mut i: usize = 0;
        while i < self.sessions.len()
            invariant
                s == self@,
                i <= s.len(),
                acc == abs_total(s.take(i as int)),
                acc <= i64::MAX,
            decreases s.len() - i,
        {
            let x = &self.sessions[i];
            assert(s[i as int] == x@);
            proof {
                lemma_take_step(s, i as int);
            }
            let d = (x.end as i128) - (x.start as i128);
            let a = if d >= 0 { d } else { -d };
            acc = acc + a;
            if acc > (i64::MAX as i128) {
                proof {
                    lemma_abs_total_prefix(s, i + 1);
                }
                return false;
            }
            i = i + 1;
        }
        assert(s.take(s.len() as int) =~= s);
        proof {
            small_durations_fit(s, active_state());
            small_durations_fit(s, idle_state());
            assert forall|app: Seq<char>| sums_fit(s, #[trigger] app_state(app)) by {
                small_durations_fit(s, app_state(app));
            }
            assert forall|k: int, st: StateModel| 0 <= k <= s.len() implies fits_i64(
                #[trigger] time_where(s.take(k), one_state(st)),
            ) by {
                small_durations_fit(s, one_state(st));
            }
            assert forall|k: int, app: Seq<char>| 0 <= k <= s.len() implies fits_i64(
                #[trigger] time_where(s.take(k), app_state(app)),
            ) by {
                small_durations_fit(s, app_state(app));
            }
            assert forall|i: int| 0 <= i < s.len() implies fits_i64(#[trigger] duration(s[i])) by {
                lemma_duration_bounded(s, i);
            }
        }
        true
    }

    /// The time spent in each application: one entry per application id of
    /// an active session, in the order in which the applications first
    /// appear (idle time is not counted).
    pub fn time_per_app(&self) -> (r: Vec<(String, i64)>)
        requires
            app_sums_fit(self@),
        ensures
            entry_names(r@) == distinct_apps(self@),
            forall|j: int|
                0 <= j < r@.len() ==> #[trigger] r@[j].1 == time_where(self@, app_state(r@[j].0@)),
    {
        let ghost s = self@;
        let mut entries: Vec<(String, i64)> = Vec::new();
        let mut i: usize = 0;
        while i < self.sessions.len()
            invariant
                s == self@,
                app_sums_fit(s),
                i <= s.len(),
                entry_names(entries@) == distinct_apps(s.take(i as int)),
                forall|j: int|
                    0 <= j < entries@.len() ==> #[trigger] entries@[j].1 == time_where(
                        s.take(i as int),
                        app_state(entries@[j].0@),
                    ),
            decreases s.len() - i,
        {
            let x = &self.sessions[i];
            assert(s[i as int] == x@);
            proof {
                lemma_take_step(s, i as int);
            }
            let ghost old_entries = entries@;
            match &x.state {
                State::Active { app_id, .. } => {
                    assert(fits_i64(duration(s[i as int])));
                    assert(fits_i64(time_where(s.take(i + 1), app_state(app_id@))));
                    let d = x.end - x.start;
                    match find_name(&entries, app_id) {
                        Some(j) => {
                            let name = entries[j].0.clone();
                            let v = entries[j].1;
                            assert(entry_names(old_entries)[j as int] == app_id@);
                            entries.set(j, (name, v + d));
                            assert forall|k: int| 0 <= k < entries@.len() implies #[trigger] entries@[k].1
                                == time_where(s.take(i + 1), app_state(entries@[k].0@)) by {
                                assert(entries@[k].0@ == old_entries[k].0@);
                                if k != j {
                                    apps_listed_once(s.take(i as int));
                                    assert(entry_names(old_entries)[k] == old_entries[k].0@);
                                }
                            }
                            assert(entry_names(entries@) =~= entry_names(old_entries));
                        },
                        None => {
                            assert(!distinct_apps(s.take(i as int)).contains(app_id@)) by {
                                if distinct_apps(s.take(i as int)).contains(app_id@) {
                                    let k = choose|k: int|
                                        0 <= k < distinct_apps(s.take(i as int)).len() && distinct_apps(
                                            s.take(i as int),
                                        )[k] == app_id@;
                                    assert(entry_names(old_entries)[k] == old_entries[k].0@);
                                }
                            }
                            proof {
                                lemma_absent_app_no_time(s.take(i as int), app_id@);
                            }
                            entries.push((app_id.clone(), d));
                            assert forall|k: int| 0 <= k < entries@.len() implies #[trigger] entries@[k].1
                                == time_where(s.take(i + 1), app_state(entries@[k].0@)) by {
                                if k < old_entries.len() {
                                    assert(entries@[k] == old_entries[k]);
                                    assert(entry_names(old_entries)[k] == old_entries[k].0@);
                                }
                            }
                            assert(entry_names(entries@) =~= entry_names(old_entries).push(app_id@));
                        },
                    }
                },
                State::Idle => {
                    assert forall|k: int| 0 <= k < entries@.len() implies #[trigger] entries@[k].1
                        == time_where(s.take(i + 1), app_state(entries@[k].0@)) by {}
                },
            }
            i = i + 1;
        }
        assert(s.take(s.len() as int) =~= s);
        entries
    }

    /// The time spent in each state: one entry per distinct state, in the
    /// order in which the states first appear.
    pub fn time_for_each_app(&self) -> (r: Vec<(State, i64)>)
        requires
            state_sums_fit(self@),
        ensures
            entry_states(r@) == distinct_states(self@),
            entry_states(r@).no_duplicates(),
            forall|j: int|
                0 <= j < r@.len() ==> #[trigger] r@[j].1 == time_where(self@, one_state(r@[j].0@)),
            entries_total(r@) == time_where(self@, active_state()) + time_where(self@, idle_state()),
    {
        let ghost s = self@;
        let mut entries: Vec<(State, i64)> = Vec::new();
        let mut i: usize = 0;
        while i < self.sessions.len()
            invariant
                s == self@,
                state_sums_fit(s),
                i <= s.len(),
                entry_states(entries@) == distinct_states(s.take(i as int)),
                forall|j: int|
                    0 <= j < entries@.len() ==> #[trigger] entries@[j].1 == time_where(
                        s.take(i as int),
                        one_state(entries@[j].0@),
                    ),
            decreases s.len() - i,
        {
            let x = &self.sessions[i];
            assert(s[i as int] == x@);
            proof {
                lemma_take_step(s, i as int);
            }
            assert(fits_i64(duration(s[i as int])));
            let d = x.end - x.start;
            let ghost old_entries = entries@;
            let found = find_state(&entries, &x.state);
            if let Some(j) = found {
                let st = entries[j].0.duplicate();
                let v = entries[j].1;
                assert(entry_states(old_entries)[j as int] == x.state@);
                assert(fits_i64(time_where(s.take(i + 1), one_state(x.state@))));
                entries.set(j, (st, v + d));
                assert forall|k: int| 0 <= k < entries@.len() implies #[trigger] entries@[k].1
                    == time_where(s.take(i + 1), one_state(entries@[k].0@)) by {
                    assert(entries@[k].0@ == old_entries[k].0@);
                    if k != j {
                        states_listed_once(s.take(i as int));
                        assert(entry_states(old_entries)[k] == old_entries[k].0@);
                    }
                }
                assert(entry_states(entries@) =~= entry_states(old_entries));
                assert(distinct_states(s.take(i + 1)) == distinct_states(s.take(i as int)));
            } else {
                assert(!distinct_states(s.take(i as int)).contains(x.state@)) by {
                    if distinct_states(s.take(i as int)).contains(x.state@) {
                        let k = choose|k: int|
                            0 <= k < distinct_states(s.take(i as int)).len()
                                && distinct_states(s.take(i as int))[k] == x.state@;
                        assert(entry_states(old_entries)[k] == old_entries[k].0@);
                    }
                }
                proof {
                    lemma_absent_state_no_time(s.take(i as int), x.state@);
                }
                let st = x.state.duplicate();
                entries.push((st, d));
                assert forall|k: int| 0 <= k < entries@.len() implies #[trigger] entries@[k].1
                    == time_where(s.take(i + 1), one_state(entries@[k].0@)) by {
                    if k < old_entries.len() {
                        assert(entries@[k] == old_entries[k]);
                        assert(old_entries[k].0@ != x.state@) by {
                            assert(entry_states(old_entries)[k] == old_entries[k].0@);
                        }
                    }
                }
                assert(entry_states(entries@) =~= entry_states(old_entries).push(x.state@));
            }
            i = i + 1;
        }
        assert(s.take(s.len() as int) =~= s);
        proof {
            states_listed_once(s);
            state_entries_add_up(s, entries@);
        }
        entries
    }
}

/// The sum, over the states `d`, of the time spent in each.
pub open spec fn total_of_states(s: Seq<SessionModel>, d: Seq<StateModel>) -> int
    decreases d.len(),
{
    if d.len() == 0 {
        0
    } else {
        total_of_states(s, d.drop_last()) + time_where(s, one_state(d.last()))
    }
}

/// Every session is either active or idle, so screen time and idle time
/// together make up all the recorded time.
pub proof fn screen_and_idle_make_up_all_time(s: Seq<SessionModel>)
    ensures
        time_where(s, active_state()) + time_where(s, idle_state()) == time_where(s, any_state()),
    decreases s.len(),
{
    if s.len() > 0 {
        screen_and_idle_make_up_all_time(s.drop_last());
    }
}

proof fn lemma_total_push(s: Seq<SessionModel>, x: SessionModel, d: Seq<StateModel>)
    requires
        d.no_duplicates(),
    ensures
        total_of_states(s.push(x), d) == total_of_states(s, d) + if d.contains(x.state) {
            duration(x)
        } else {
            0
        },
    decreases d.len(),
{
    assert(s.push(x).drop_last() =~= s);
    if d.len() > 0 {
        let d0 = d.drop_last();
        assert(d0.no_duplicates());
        lemma_total_push(s, x, d0);
        if d0.contains(x.state) {
            let k = choose|k: int| 0 <= k < d0.len() && d0[k] == x.state;
            assert(d[k] == d0[k]);
            assert(d.last() != x.state);
            assert(d.contains(x.state));
        } else if d.last() == x.state {
            assert(d.contains(x.state)) by {
                assert(d[d.len() - 1] == x.state);
            }
        } else {
            assert(!d.contains(x.state)) by {
                if d.contains(x.state) {
                    let k = choose|k: int| 0 <= k < d.len() && d[k] == x.state;
                    assert(k != d.len() - 1);
                    assert(d0[k] == x.state);
                }
            }
        }
    }
}

/// The times of the distinct states add up to all the recorded time: the
/// per-state statistics account for every session exactly once.
pub proof fn state_times_add_up(s: Seq<SessionModel>)
    ensures
        total_of_states(s, distinct_states(s)) == time_where(s, any_state()),
    decreases s.len(),
{
    if s.len() > 0 {
        let s0 = s.drop_last();
        let x = s.last();
        let d0 = distinct_states(s0);
        state_times_add_up(s0);
        states_listed_once(s0);
        assert(s0.push(x) =~= s);
        lemma_total_push(s0, x, d0);
        if !d0.contains(x.state) {
            lemma_absent_state_no_time(s0, x.state);
            assert(d0.push(x.state).drop_last() =~= d0);
            states_listed_once(s);
            lemma_total_push(s0, x, d0.push(x.state).drop_last());
        }
    }
}

/// The sum of the times of per-state entries.
pub open spec fn entries_total(e: Seq<(State, i64)>) -> int
    decreases e.len(),
{
    if e.len() == 0 {
        0
    } else {
        entries_total(e.drop_last()) + e.last().1
    }
}

proof fn lemma_entries_total(s: Seq<SessionModel>, e: Seq<(State, i64)>)
    requires
        forall|j: int| 0 <= j < e.len() ==> #[trigger] e[j].1 == time_where(s, one_state(e[j].0@)),
    ensures
        entries_total(e) == total_of_states(s, entry_states(e)),
    decreases e.len(),
{
    if e.len() > 0 {
        let e0 = e.drop_last();
        assert(entry_states(e0) =~= entry_states(e).drop_last());
        assert forall|j: int| 0 <= j < e0.len() implies #[trigger] e0[j].1 == time_where(
            s,
            one_state(e0[j].0@),
        ) by {
            assert(e0[j] == e[j]);
        }
        lemma_entries_total(s, e0);
        assert(entry_states(e).last() == e.last().0@);
        assert(e[e.len() - 1].1 == time_where(s, one_state(e[e.len() - 1].0@)));
    }
}

/// Per-state entries that give each distinct state once with its time add
/// up to the screen time and the idle time together.
pub proof fn state_entries_add_up(s: Seq<SessionModel>, e: Seq<(State, i64)>)
    requires
        entry_states(e) == distinct_states(s),
        forall|j: int| 0 <= j < e.len() ==> #[trigger] e[j].1 == time_where(s, one_state(e[j].0@)),
    ensures
        entries_total(e) == time_where(s, active_state()) + time_where(s, idle_state()),
{
    lemma_entries_total(s, e);
    state_times_add_up(s);
    screen_and_idle_make_up_all_time(s);
}

/// The per-state totals list each state once: the distinct states hold no
/// state twice.
pub proof fn states_listed_once(s: Seq<SessionModel>)
    ensures
        distinct_states(s).no_duplicates(),
    decreases s.len(),
{
    if s.len() > 0 {
        states_listed_once(s.drop_last());
    }
}

/// The index of the entry for state `st`, if there is one.
fn find_state(entries: &Vec<(State, i64)>, st: &State) -> (r: Option<usize>)
    ensures
        match r {
            Some(j) => j < entries@.len() && entries@[j as int].0@ == st@,
            None => forall|k: int| 0 <= k < entries@.len() ==> entries@[k].0@ != st@,
        },
{
    let mut j: usize = 0;
    while j < entries.len()
        invariant
            j <= entries@.len(),
            forall|k: int| 0 <= k < j ==> entries@[k].0@ != st@,
        decreases entries@.len() - j,
    {
        if entries[j].0.same_as(st) {
            return Some(j);
        }
        j = j + 1;
    }
    None
}

/// A group of sessions, as a mathematical value.
pub struct GroupModel {
    pub app_ids: Seq<Seq<char>>,
    pub workspaces: Seq<i32>,
}

/// Whether a session satisfies the rules of a group: it is active, in one of
/// the group's applications (any, when the group names none), and on one of its
/// workspaces (any, when the group names none).
pub open spec fn group_matches(g: GroupModel, s: SessionModel) -> bool {
    match s.state {
        StateModel::Active { app_id, workspace } => {
            &&& (g.app_ids.len() == 0 || g.app_ids.contains(app_id))
            &&& (g.workspaces.len() == 0 || (workspace is Some && g.workspaces.contains(
                workspace->0,
            )))
        },
        StateModel::Idle => false,
    }
}

/// The rules of a group, each on its own: an idle session matches no group;
/// a matching session's application is among the group's when the group
/// names any; its workspace is known and among the group's when the group
/// names any, whatever applications the group names; and an active session
/// that meets both rules matches.
pub proof fn group_rules(g: GroupModel, s: SessionModel)
    ensures
        group_matches(g, s) ==> s.state is Active,
        group_matches(g, s) && g.app_ids.len() > 0 ==> g.app_ids.contains(s.state->app_id),
        group_matches(g, s) && g.workspaces.len() > 0 ==> s.state->workspace is Some
            && g.workspaces.contains(s.state->workspace->0),
        s.state is Active && (g.app_ids.len() == 0 || g.app_ids.contains(s.state->app_id)) && (
        g.workspaces.len() == 0 || (s.state->workspace is Some && g.workspaces.contains(
            s.state->workspace->0,
        ))) ==> group_matches(g, s),
{
}

/// The index of the first group from `i` on that the session matches, or
/// `groups.len()` when there is none.
pub open spec fn first_match(groups: Seq<GroupModel>, s: SessionModel, i: int) -> int
    decreases groups.len() - i,
{
    if i >= groups.len() {
        groups.len() as int
    } else if group_matches(groups[i], s) {
        i
    } else {
        first_match(groups, s, i + 1)
    }
}

/// The group of a session: the index of the first group it matches, or
/// `groups.len()` for "no group".
pub open spec fn group_of(groups: Seq<GroupModel>, s: SessionModel) -> int {
    first_match(groups, s, 0)
}

/// The distinct groups of the sessions, in the order of their first appearance.
pub open spec fn group_keys(groups: Seq<GroupModel>, s: Seq<SessionModel>) -> Seq<int>
    decreases s.len(),
{
    if s.len() == 0 {
        Seq::empty()
    } else {
        let d = group_keys(groups, s.drop_last());
        let k = group_of(groups, s.last());
        if d.contains(k) {
            d
        } else {
            d.push(k)
        }
    }
}

/// The sessions of group `k`, in their order.
pub open spec fn sessions_of_group(groups: Seq<GroupModel>, s: Seq<SessionModel>, k: int) -> Seq<
    SessionModel,
>
    decreases s.len(),
{
    if s.len() == 0 {
        Seq::empty()
    } else {
        let rest = sessions_of_group(groups, s.drop_last(), k);
        if group_of(groups, s.last()) == k {
            rest.push(s.last())
        } else {
            rest
        }
    }
}

/// The group that index `k` stands for: `None` past the last group.
pub open spec fn key_group(groups: Seq<GroupModel>, k: int) -> Option<GroupModel> {
    if 0 <= k < groups.len() {
        Some(groups[k])
    } else {
        None
    }
}

/// A set of rules to classify sessions: application ids and workspace numbers.
#[derive(Debug, Clone, PartialEq, Eq, Hash)]
pub struct SessionGroup {
    /// Application ids; when empty, any application matches.
    pub app_ids: Vec<String>,
    /// Workspace numbers; when empty, any workspace matches.
    pub workspaces: Vec<i32>,
}

impl View for SessionGroup {
    type V = GroupModel;

    open spec fn view(&self) -> GroupModel {
        GroupModel { app_ids: crate::manager::strings_view(self.app_ids@), workspaces: self.workspaces@ }
    }
}

/// The view of an optional group.
pub open spec fn opt_group_view(g: Option<SessionGroup>) -> Option<GroupModel> {
    match g {
        Some(x) => Some(x@),
        None => None,
    }
}

/// The views of a sequence of groups.
pub open spec fn groups_view(g: Seq<SessionGroup>) -> Seq<GroupModel> {
    g.map_values(|x: SessionGroup| x@)
}

/// Whether `v` holds a string equal to `x`.
fn strings_contain(v: &Vec<String>, x: &String) -> (r: bool)
    ensures
        r == crate::manager::strings_view(v@).contains(x@),
{
    let mut i: usize = 0;
    while i < v.len()
        invariant
            i <= v@.len(),
            forall|j: int| 0 <= j < i ==> v@[j]@ != x@,
        decreases v@.len() - i,
    {
        if v[i] == *x {
            assert(crate::manager::strings_view(v@)[i as int] == x@);
            return true;
        }
        i = i + 1;
    }
    assert(!crate::manager::strings_view(v@).contains(x@)) by {
        if crate::manager::strings_view(v@).contains(x@) {
            let k = choose|k: int|
                0 <= k < crate::manager::strings_view(v@).len() && crate::manager::strings_view(v@)[k]
                    == x@;
            assert(v@[k]@ == x@);
        }
    }
    false
}

/// Whether `v` holds `x`.
fn ints_contain(v: &Vec<i32>, x: i32) -> (r: bool)
    ensures
        r == v@.contains(x),
{
    let mut i: usize = 0;
    while i < v.len()
        invariant
            i <= v@.len(),
            forall|j: int| 0 <= j < i ==> v@[j] != x,
        decreases v@.len() - i,
    {
        if v[i] == x {
            return true;
        }
        i = i + 1;
    }
    false
}

/// A copy of a vector of strings.
fn copy_strings(v: &Vec<String>) -> (r: Vec<String>)
    ensures
        crate::manager::strings_view(r@) == crate::manager::strings_view(v@),
{
    let mut r: Vec<String> = Vec::new();
    let mut i: usize = 0;
    while i < v.len()
        invariant
            i <= v@.len(),
            r@.len() == i,
            forall|j: int| 0 <= j < i ==> r@[j]@ == v@[j]@,
        decreases v@.len() - i,
    {
        r.push(v[i].clone());
        i = i + 1;
    }
    assert(crate::manager::strings_view(r@) =~= crate::manager::strings_view(v@));
    r
}

/// A copy of a vector of integers.
fn copy_ints(v: &Vec<i32>) -> (r: Vec<i32>)
    ensures
        r@ == v@,
{
    let mut r: Vec<i32> = Vec::new();
    let mut i: usize = 0;
    while i < v.len()
        invariant
            i <= v@.len(),
            r@ == v@.take(i as int),
        decreases v@.len() - i,
    {
        r.push(v[i]);
        assert(v@.take(i + 1) =~= v@.take(i as int).push(v@[i as int]));
        i = i + 1;
    }
    assert(v@.take(v@.len() as int) =~= v@);
    r
}

impl SessionGroup {
    /// Whether `session` satisfies the rules of this group.
    pub fn matches(&self, session: &Session) -> (r: bool)
        ensures
            r == group_matches(self@, session@),
    {
        match &session.state {
            State::Active { app_id, workspace } => {
                let app_matches = self.app_ids.len() == 0 || strings_contain(&self.app_ids, app_id);
                let ws_matches = self.workspaces.len() == 0 || match workspace {
                    Some(w) => ints_contain(&self.workspaces, *w),
                    None => false,
                };
                app_matches && ws_matches
            },
            State::Idle => false,
        }
    }

    /// A copy of this group.
    pub fn duplicate(&self) -> (r: SessionGroup)
        ensures
            r@ == self@,
    {
        SessionGroup { app_ids: copy_strings(&self.app_ids), workspaces: copy_ints(&self.workspaces) }
    }
}

/// The index of the first group that `session` matches, or `groups.len()`.
fn group_index(session: &Session, groups: &[SessionGroup]) -> (r: usize)
    ensures
        r == group_of(groups_view(groups@), session@),
{
    let ghost g = groups_view(groups@);
    let mut i: usize = 0;
    while i < groups.len()
        invariant
            g == groups_view(groups@),
            i <= groups@.len(),
            first_match(g, session@, 0) == first_match(g, session@, i as int),
        decreases groups@.len() - i,
    {
        if groups[i].matches(session) {
            return i;
        }
        i = i + 1;
    }
    i
}

/// The index of `k` in `keys`, if it is there.
fn find_key(keys: &Vec<usize>, k: usize) -> (r: Option<usize>)
    ensures
        match r {
            Some(j) => j < keys@.len() && keys@[j as int] == k,
            None => !keys@.contains(k),
        },
{
    let mut j: usize = 0;
    while j < keys.len()
        invariant
            j <= keys@.len(),
            forall|i: int| 0 <= i < j ==> keys@[i] != k,
        decreases keys@.len() - j,
    {
        if keys[j] == k {
            return Some(j);
        }
        j = j + 1;
    }
    None
}

/// The views of a sequence of group indices.
pub open spec fn keys_view(k: Seq<usize>) -> Seq<int> {
    k.map_values(|x: usize| x as int)
}

/// Groups `sessions` by the first group in `groups` that each matches.
///
/// The result holds one entry per group that some session falls in, `None`
/// standing for the sessions that match no group; the entries come in the
/// order in which their groups first occur, and each entry's sessions keep
/// their order.
pub fn group_sessions(sessions: Vec<Session>, groups: &[SessionGroup]) -> (r: Vec<
    (Option<SessionGroup>, Vec<Session>),
>)
    ensures
        r@.len() == group_keys(groups_view(groups@), sessions_view(sessions@)).len(),
        forall|j: int|
            0 <= j < r@.len() ==> {
                let k = #[trigger] group_keys(groups_view(groups@), sessions_view(sessions@))[j];
                &&& opt_group_view(r@[j].0) == key_group(groups_view(groups@), k)
                &&& sessions_view(r@[j].1@) == sessions_of_group(
                    groups_view(groups@),
                    sessions_view(sessions@),
                    k,
                )
            },
        forall|j: int| 0 <= j < r@.len() ==> (#[trigger] r@[j]).1@.len() > 0,
{
    let ghost g = groups_view(groups@);
    let ghost s = sessions_view(sessions@);
    let mut keys: Vec<usize> = Vec::new();
    let mut buckets: Vec<Vec<Session>> = Vec::new();
    let mut i: usize = 0;
    while i < sessions.len()
        invariant
            g == groups_view(groups@),
            s == sessions_view(sessions@),
            i <= s.len(),
            keys_view(keys@) == group_keys(g, s.take(i as int)),
            buckets@.len() == keys@.len(),
            forall|j: int|
                0 <= j < buckets@.len() ==> sessions_view(#[trigger] buckets@[j]@)
                    == sessions_of_group(g, s.take(i as int), keys@[j] as int),
        decreases s.len() - i,
    {
        let x = &sessions[i];
        proof {
            lemma_take_step(s, i as int);
        }
        assert(s[i as int] == x@);
        let k = group_index(x, groups);
        let ghost old_keys = keys@;
        let ghost old_buckets = buckets@;
        match find_key(&keys, k) {
            Some(j) => {
                let mut b: Vec<Session> = Vec::new();
                buckets.set_and_swap(j, &mut b);
                b.push(x.duplicate());
                buckets.set_and_swap(j, &mut b);
                assert(keys_view(old_keys)[j as int] == k);
                assert(group_keys(g, s.take(i + 1)) == group_keys(g, s.take(i as int)));
                assert forall|jj: int| 0 <= jj < buckets@.len() implies sessions_view(
                    #[trigger] buckets@[jj]@,
                ) == sessions_of_group(g, s.take(i + 1), keys@[jj] as int) by {
                    if jj == j {
                        assert(sessions_view(buckets@[jj]@) =~= sessions_view(old_buckets[jj]@).push(x@));
                    } else {
                        groups_listed_once(g, s.take(i as int));
                        assert(keys_view(old_keys)[jj] == old_keys[jj] as int);
                    }
                }
            },
            None => {
                assert(!group_keys(g, s.take(i as int)).contains(k as int)) by {
                    if group_keys(g, s.take(i as int)).contains(k as int) {
                        let t = choose|t: int|
                            0 <= t < group_keys(g, s.take(i as int)).len() && group_keys(
                                g,
                                s.take(i as int),
                            )[t] == k;
                        assert(keys_view(old_keys)[t] == old_keys[t] as int);
                    }
                }
                proof {
                    lemma_absent_group_empty(g, s.take(i as int), k as int);
                }
                keys.push(k);
                let mut b: Vec<Session> = Vec::new();
                b.push(x.duplicate());
                buckets.push(b);
                assert(keys_view(keys@) =~= keys_view(old_keys).push(k as int));
                assert forall|jj: int| 0 <= jj < buckets@.len() implies sessions_view(
                    #[trigger] buckets@[jj]@,
                ) == sessions_of_group(g, s.take(i + 1), keys@[jj] as int) by {
                    if jj == old_buckets.len() {
                        assert(sessions_view(buckets@[jj]@) =~= Seq::<SessionModel>::empty().push(x@));
                    } else {
                        assert(keys@[jj] == old_keys[jj]);
                        assert(keys_view(old_keys)[jj] != k as int);
                    }
                }
            },
        }
        i = i + 1;
    }
    assert(s.take(s.len() as int) =~= s);
    let mut r: Vec<(Option<SessionGroup>, Vec<Session>)> = Vec::new();
    let mut j: usize = 0;
    while j < keys.len()
        invariant
            g == groups_view(groups@),
            s == sessions_view(sessions@),
            keys_view(keys@) == group_keys(g, s),
            buckets@.len() == keys@.len(),
            j <= keys@.len(),
            r@.len() == j,
            forall|t: int|
                j <= t < buckets@.len() ==> sessions_view(#[trigger] buckets@[t]@)
                    == sessions_of_group(g, s, keys@[t] as int),
            forall|t: int|
                0 <= t < j ==> {
                    &&& opt_group_view(#[trigger] r@[t].0) == key_group(g, keys@[t] as int)
                    &&& sessions_view(r@[t].1@) == sessions_of_group(g, s, keys@[t] as int)
                },
        decreases keys@.len() - j,
    {
        let k = keys[j];
        let key = if k < groups.len() {
            Some(groups[k].duplicate())
        } else {
            None
        };
        let mut b: Vec<Session> = Vec::new();
        buckets.set_and_swap(j, &mut b);
        assert(keys_view(keys@)[j as int] == k as int);
        r.push((key, b));
        j = j + 1;
    }
    assert forall|t: int| 0 <= t < r@.len() implies #[trigger] group_keys(g, s)[t] == keys@[t] as int by {
        assert(keys_view(keys@)[t] == keys@[t] as int);
    }
    assert forall|j: int| 0 <= j < r@.len() implies (#[trigger] r@[j]).1@.len() > 0 by {
        let k = group_keys(g, s)[j];
        assert(group_keys(g, s)[j] == keys@[j] as int);
        assert(opt_group_view(r@[j].0) == key_group(g, keys@[j] as int));
        assert(sessions_view(r@[j].1@) == sessions_of_group(g, s, k));
        assert(group_keys(g, s).contains(k));
        listed_groups_are_nonempty(g, s, k);
        assert(sessions_view(r@[j].1@).len() == r@[j].1@.len());
    }
    r
}

/// Grouping lists each group once: the groups that the sessions fall in
/// hold no group twice.
pub proof fn groups_listed_once(g: Seq<GroupModel>, s: Seq<SessionModel>)
    ensures
        group_keys(g, s).no_duplicates(),
    decreases s.len(),
{
    if s.len() > 0 {
        groups_listed_once(g, s.drop_last());
    }
}

/// The number of sessions in the groups `keys`.
pub open spec fn count_in_groups(g: Seq<GroupModel>, s: Seq<SessionModel>, keys: Seq<int>) -> int
    decreases keys.len(),
{
    if keys.len() == 0 {
        0
    } else {
        count_in_groups(g, s, keys.drop_last()) + sessions_of_group(g, s, keys.last()).len()
    }
}

proof fn lemma_count_push(g: Seq<GroupModel>, s: Seq<SessionModel>, x: SessionModel, keys: Seq<int>)
    requires
        keys.no_duplicates(),
    ensures
        count_in_groups(g, s.push(x), keys) == count_in_groups(g, s, keys) + if keys.contains(
            group_of(g, x),
        ) {
            1int
        } else {
            0int
        },
    decreases keys.len(),
{
    assert(s.push(x).drop_last() =~= s);
    if keys.len() > 0 {
        let k0 = keys.drop_last();
        assert(k0.no_duplicates());
        lemma_count_push(g, s, x, k0);
        let k = group_of(g, x);
        if k0.contains(k) {
            let t = choose|t: int| 0 <= t < k0.len() && k0[t] == k;
            assert(keys[t] == k0[t]);
            assert(keys.contains(k));
        } else if keys.last() == k {
            assert(keys[keys.len() - 1] == k);
        } else {
            assert(!keys.contains(k)) by {
                if keys.contains(k) {
                    let t = choose|t: int| 0 <= t < keys.len() && keys[t] == k;
                    assert(k0[t] == k);
                }
            }
        }
    }
}

/// Grouping is a partition: every session lands in exactly one group, so
/// the groups hold as many sessions as there are.
pub proof fn grouping_partitions_sessions(g: Seq<GroupModel>, s: Seq<SessionModel>)
    ensures
        count_in_groups(g, s, group_keys(g, s)) == s.len(),
    decreases s.len(),
{
    if s.len() > 0 {
        let s0 = s.drop_last();
        let x = s.last();
        let d0 = group_keys(g, s0);
        let k = group_of(g, x);
        grouping_partitions_sessions(g, s0);
        groups_listed_once(g, s0);
        assert(s0.push(x) =~= s);
        lemma_count_push(g, s0, x, d0);
        if !d0.contains(k) {
            lemma_absent_group_empty(g, s0, k);
            assert(d0.push(k).drop_last() =~= d0);
            groups_listed_once(g, s);
            lemma_count_push(g, s0, x, d0);
        }
    }
}

proof fn lemma_first_match(g: Seq<GroupModel>, x: SessionModel, i: int)
    requires
        0 <= i <= g.len(),
    ensures
        i <= first_match(g, x, i) <= g.len(),
        first_match(g, x, i) < g.len() ==> group_matches(g[first_match(g, x, i)], x),
        forall|j: int| i <= j < first_match(g, x, i) ==> !group_matches(#[trigger] g[j], x),
    decreases g.len() - i,
{
    if i < g.len() && !group_matches(g[i], x) {
        lemma_first_match(g, x, i + 1);
    }
}

proof fn lemma_sessions_of_group_members(g: Seq<GroupModel>, s: Seq<SessionModel>, k: int, x: SessionModel)
    requires
        sessions_of_group(g, s, k).contains(x),
    ensures
        group_of(g, x) == k,
    decreases s.len(),
{
    if s.len() > 0 {
        let rest = sessions_of_group(g, s.drop_last(), k);
        if group_of(g, s.last()) == k && x == s.last() {
        } else if rest.contains(x) {
            lemma_sessions_of_group_members(g, s.drop_last(), k, x);
        } else {
            let t = choose|t: int|
                0 <= t < sessions_of_group(g, s, k).len() && sessions_of_group(g, s, k)[t] == x;
            if group_of(g, s.last()) == k {
                assert(t < rest.len());
                assert(rest[t] == x);
            } else {
                assert(rest[t] == x);
            }
        }
    }
}

/// A session in the entry of a group matches that group and none before it;
/// a session in the entry of no group (`g.len()`) matches no group at all.
pub proof fn grouped_sessions_follow_rules(
    g: Seq<GroupModel>,
    s: Seq<SessionModel>,
    k: int,
    x: SessionModel,
)
    requires
        sessions_of_group(g, s, k).contains(x),
    ensures
        0 <= k <= g.len(),
        k < g.len() ==> group_matches(g[k], x),
        forall|i: int| 0 <= i < k ==> !group_matches(#[trigger] g[i], x),
{
    lemma_sessions_of_group_members(g, s, k, x);
    lemma_first_match(g, x, 0);
}

/// Every group that grouping lists holds at least one session: no entry of
/// the result is empty.
pub proof fn listed_groups_are_nonempty(g: Seq<GroupModel>, s: Seq<SessionModel>, k: int)
    requires
        group_keys(g, s).contains(k),
    ensures
        sessions_of_group(g, s, k).len() > 0,
    decreases s.len(),
{
    if s.len() > 0 {
        let d = group_keys(g, s.drop_last());
        if d.contains(k) {
            listed_groups_are_nonempty(g, s.drop_last(), k);
        } else {
            if group_of(g, s.last()) != k {
                assert(group_keys(g, s) == d || group_keys(g, s) == d.push(group_of(g, s.last())));
                let t = choose|t: int| 0 <= t < group_keys(g, s).len() && group_keys(g, s)[t] == k;
                if t < d.len() {
                    assert(d[t] == k);
                }
            }
        }
    }
}

proof fn lemma_member_grouped(g: Seq<GroupModel>, s: Seq<SessionModel>, x: SessionModel)
    requires
        s.contains(x),
    ensures
        group_keys(g, s).contains(group_of(g, x)),
        sessions_of_group(g, s, group_of(g, x)).contains(x),
    decreases s.len(),
{
    let k = group_of(g, x);
    let s0 = s.drop_last();
    let d = group_keys(g, s0);
    if s.last() == x {
        let b = sessions_of_group(g, s, k);
        assert(b[b.len() - 1] == x);
        if d.contains(k) {
            let t = choose|t: int| 0 <= t < d.len() && d[t] == k;
            assert(group_keys(g, s)[t] == k);
        } else {
            assert(group_keys(g, s)[d.len() as int] == k);
        }
    } else {
        let t = choose|t: int| 0 <= t < s.len() && s[t] == x;
        assert(s0[t] == x);
        lemma_member_grouped(g, s0, x);
        let u = choose|u: int| 0 <= u < d.len() && d[u] == k;
        assert(group_keys(g, s)[u] == k);
        let b0 = sessions_of_group(g, s0, k);
        let v = choose|v: int| 0 <= v < b0.len() && b0[v] == x;
        assert(sessions_of_group(g, s, k)[v] == x);
    }
}

/// Grouping, as `group_sessions` returns it (one entry per listed group,
/// holding `sessions_of_group`): each group is listed once and holds at
/// least one session; every session lies in the entry of the first group it
/// matches (or of no group), and only there; and the entries together hold
/// as many sessions as there are.
pub proof fn grouping_law(g: Seq<GroupModel>, s: Seq<SessionModel>)
    ensures
        group_keys(g, s).no_duplicates(),
        forall|j: int|
            0 <= j < group_keys(g, s).len() ==> sessions_of_group(
                g,
                s,
                #[trigger] group_keys(g, s)[j],
            ).len() > 0,
        forall|x: SessionModel|
            s.contains(x) ==> group_keys(g, s).contains(#[trigger] group_of(g, x))
                && sessions_of_group(g, s, group_of(g, x)).contains(x),
        forall|k: int, x: SessionModel|
            #[trigger] sessions_of_group(g, s, k).contains(x) ==> {
                &&& group_of(g, x) == k
                &&& 0 <= k <= g.len()
                &&& k < g.len() ==> group_matches(g[k], x)
                &&& forall|i: int| 0 <= i < k ==> !group_matches(#[trigger] g[i], x)
            },
        count_in_groups(g, s, group_keys(g, s)) == s.len(),
{
    groups_listed_once(g, s);
    grouping_partitions_sessions(g, s);
    assert forall|j: int| 0 <= j < group_keys(g, s).len() implies sessions_of_group(
        g,
        s,
        #[trigger] group_keys(g, s)[j],
    ).len() > 0 by {
        listed_groups_are_nonempty(g, s, group_keys(g, s)[j]);
    }
    assert forall|x: SessionModel| s.contains(x) implies group_keys(g, s).contains(
        #[trigger] group_of(g, x),
    ) && sessions_of_group(g, s, group_of(g, x)).contains(x) by {
        lemma_member_grouped(g, s, x);
    }
    assert forall|k: int, x: SessionModel| #[trigger] sessions_of_group(g, s, k).contains(x) implies {
        &&& group_of(g, x) == k
        &&& 0 <= k <= g.len()
        &&& k < g.len() ==> group_matches(g[k], x)
        &&& forall|i: int| 0 <= i < k ==> !group_matches(#[trigger] g[i], x)
    } by {
        grouped_sessions_follow_rules(g, s, k, x);
        lemma_sessions_of_group_members(g, s, k, x);
    }
}

/// A group that no session falls in has no sessions.
proof fn lemma_absent_group_empty(g: Seq<GroupModel>, s: Seq<SessionModel>, k: int)
    requires
        !group_keys(g, s).contains(k),
    ensures
        sessions_of_group(g, s, k) == Seq::<SessionModel>::empty(),
    decreases s.len(),
{
    if s.len() > 0 {
        let d = group_keys(g, s.drop_last());
        if d.contains(k) {
            let t = choose|t: int| 0 <= t < d.len() && d[t] == k;
            assert(group_keys(g, s)[t] == k);
        }
        if group_of(g, s.last()) == k {
            if !d.contains(k) {
                assert(group_keys(g, s) == d.push(k));
                assert(group_keys(g, s)[d.len() as int] == k);
            }
        }
        lemma_absent_group_empty(g, s.drop_last(), k);
    }
}

/// A state that no session has accounts for no time.
proof fn lemma_absent_state_no_time(s: Seq<SessionModel>, st: StateModel)
    requires
        !distinct_states(s).contains(st),
    ensures
        time_where(s, one_state(st)) == 0,
    decreases s.len(),
{
    if s.len() > 0 {
        let d = distinct_states(s.drop_last());
        if d.contains(st) {
            let k = choose|k: int| 0 <= k < d.len() && d[k] == st;
            assert(distinct_states(s).contains(st)) by {
                assert(distinct_states(s) == d);
                assert(distinct_states(s)[k] == st);
            }
        }
        if s.last().state == st {
            assert(distinct_states(s).contains(st)) by {
                if d.contains(s.last().state) {
                    assert(distinct_states(s) == d);
                } else {
                    assert(distinct_states(s) == d.push(s.last().state));
                    assert(distinct_states(s)[d.len() as int] == st);
                }
            }
        }
        lemma_absent_state_no_time(s.drop_last(), st);
    }
}

} // verus!
