//! The niri backend's bookkeeping: it follows niri's window and workspace
//! events and tells which [`Event`]s they mean for the session manager.

use std::collections::HashMap;

use vstd::prelude::*;

use crate::session::{Event, EventModel};

verus! {

/// What the backend knows of a niri window.
#[derive(Debug, Clone)]
pub struct WindowInfo {
    /// niri's id of the window.
    pub id: u64,
    /// The application id, when the window has one.
    pub app_id: Option<String>,
    /// Whether the window has the focus.
    pub is_focused: bool,
}

/// A window, as a mathematical value.
pub struct WindowModel {
    pub id: u64,
    pub app_id: Option<Seq<char>>,
    pub is_focused: bool,
}

impl View for WindowInfo {
    type V = WindowModel;

    open spec fn view(&self) -> WindowModel {
        WindowModel {
            id: self.id,
            app_id: match self.app_id {
                Some(a) => Some(a@),
                None => None,
            },
            is_focused: self.is_focused,
        }
    }
}

impl WindowInfo {
    /// A copy of this window.
    pub fn duplicate(&self) -> (r: WindowInfo)
        ensures
            r@ == self@,
    {
        WindowInfo {
            id: self.id,
            app_id: match &self.app_id {
                Some(a) => Some(a.clone()),
                None => None,
            },
            is_focused: self.is_focused,
        }
    }
}

/// What the backend knows of a niri workspace.
#[derive(Debug, Clone, Copy)]
pub struct WorkspaceInfo {
    /// niri's id of the workspace.
    pub id: u64,
    /// Whether the workspace has the focus.
    pub is_focused: bool,
}

/// The niri events that the backend follows.
#[derive(Debug)]
pub enum NiriUpdate {
    /// The full list of windows.
    WindowsChanged(Vec<WindowInfo>),
    /// A window opened, or one changed.
    WindowOpenedOrChanged(WindowInfo),
    /// The window with this id closed.
    WindowClosed(u64),
    /// The focus moved to the window with this id, or to no window.
    WindowFocusChanged(Option<u64>),
    /// The full list of workspaces.
    WorkspacesChanged(Vec<WorkspaceInfo>),
    /// A workspace was activated, and maybe focused.
    WorkspaceActivated { id: u64, focused: bool },
    /// Any other event.
    Other,
}

/// The views of a sequence of windows.
pub open spec fn windows_view(w: Seq<WindowInfo>) -> Seq<WindowModel> {
    w.map_values(|x: WindowInfo| x@)
}

/// A window list, applied in order: each window is recorded under its id,
/// and each focused one reports its application.
pub open spec fn windows_changed(m: Map<u64, WindowModel>, ws: Seq<WindowModel>) -> (
    Map<u64, WindowModel>,
    Seq<EventModel>,
)
    decreases ws.len(),
{
    if ws.len() == 0 {
        (m, Seq::empty())
    } else {
        let (m1, e1) = windows_changed(m, ws.drop_last());
        let w = ws.last();
        (
            m1.insert(w.id, w),
            if w.is_focused {
                e1.push(EventModel::ActiveWindowChanged(w.app_id))
            } else {
                e1
            },
        )
    }
}

/// The id of the first focused workspace of the list, if any.
pub open spec fn first_focused(ws: Seq<WorkspaceInfo>) -> Option<u64>
    decreases ws.len(),
{
    if ws.len() == 0 {
        None
    } else if ws[0].is_focused {
        Some(ws[0].id)
    } else {
        first_focused(ws.drop_first())
    }
}

/// Whether a workspace id can be handed to the session manager.
pub open spec fn fits_i32(id: u64) -> bool {
    id <= i32::MAX
}

/// Whether the focused workspace ids in `u` fit in an `i32`, as the manager needs.
pub open spec fn workspace_ids_fit(u: NiriUpdate) -> bool {
    match u {
        NiriUpdate::WorkspacesChanged(ws) => first_focused(ws@) matches Some(id) ==> fits_i32(id),
        NiriUpdate::WorkspaceActivated { id, focused } => focused ==> fits_i32(id),
        _ => true,
    }
}

/// How the known windows change with `u`, and which events `u` means.
pub open spec fn niri_step(m: Map<u64, WindowModel>, u: NiriUpdate) -> (
    Map<u64, WindowModel>,
    Seq<EventModel>,
) {
    match u {
        NiriUpdate::WindowsChanged(ws) => windows_changed(m, windows_view(ws@)),
        NiriUpdate::WindowOpenedOrChanged(w) => (m.insert(w.id, w@), Seq::empty()),
        NiriUpdate::WindowClosed(id) => (m.remove(id), Seq::empty()),
        NiriUpdate::WindowFocusChanged(f) => match f {
            Some(id) => if m.contains_key(id) {
                (
                    m.insert(id, WindowModel { is_focused: true, ..m[id] }),
                    seq![EventModel::ActiveWindowChanged(m[id].app_id)],
                )
            } else {
                (m, Seq::empty())
            },
            None => (m, seq![EventModel::ActiveWindowChanged(None)]),
        },
        NiriUpdate::WorkspacesChanged(ws) => match first_focused(ws@) {
            Some(id) => (m, seq![EventModel::WorkspaceChanged(id as i32)]),
            None => (m, Seq::empty()),
        },
        NiriUpdate::WorkspaceActivated { id, focused } => if focused {
            (m, seq![EventModel::WorkspaceChanged(id as i32)])
        } else {
            (m, Seq::empty())
        },
        NiriUpdate::Other => (m, Seq::empty()),
    }
}

/// The id of the first focused workspace of `ws`, if any.
fn first_focused_id(ws: &Vec<WorkspaceInfo>) -> (r: Option<u64>)
    ensures
        r == first_focused(ws@),
{
    let mut i: usize = 0;
    assert(ws@.skip(0) =~= ws@);
    while i < ws.len()
        invariant
            i <= ws@.len(),
            first_focused(ws@) == first_focused(ws@.skip(i as int)),
        decreases ws@.len() - i,
    {
        assert(ws@.skip(i as int).drop_first() =~= ws@.skip(i + 1));
        assert(ws@.skip(i as int)[0] == ws@[i as int]);
        if ws[i].is_focused {
            return Some(ws[i].id);
        }
        i = i + 1;
    }
    None
}

/// The views of a sequence of events.
pub open spec fn events_view(e: Seq<Event>) -> Seq<EventModel> {
    e.map_values(|x: Event| x@)
}

/// Whether every window is recorded under its own id.
pub open spec fn keyed_by_id(m: Map<u64, WindowModel>) -> bool {
    forall|k: u64| #[trigger] m.contains_key(k) ==> m[k].id == k
}

/// Focusing a known window reports its application; once the window has
/// closed, focusing it reports nothing.
pub proof fn focus_reports_known_windows(m: Map<u64, WindowModel>, id: u64)
    ensures
        m.contains_key(id) ==> niri_step(m, NiriUpdate::WindowFocusChanged(Some(id))).1 == seq![
            EventModel::ActiveWindowChanged(m[id].app_id),
        ],
        niri_step(niri_step(m, NiriUpdate::WindowClosed(id)).0, NiriUpdate::WindowFocusChanged(Some(id))).1
            == Seq::<EventModel>::empty(),
{
}

/// The windows that the backend knows of, by id.
pub struct WindowTracker {
    windows: HashMap<u64, WindowInfo>,
}

impl View for WindowTracker {
    type V = Map<u64, WindowModel>;

    closed spec fn view(&self) -> Map<u64, WindowModel> {
        self.windows@.map_values(|w: WindowInfo| w@)
    }
}

impl WindowTracker {
    /// A tracker that knows no window.
    pub fn new() -> (r: Self)
        ensures
            r@ == Map::<u64, WindowModel>::empty(),
            keyed_by_id(r@),
    {
        let r = WindowTracker { windows: HashMap::new() };
        assert(r@ =~= Map::<u64, WindowModel>::empty());
        r
    }

    fn record(&mut self, w: WindowInfo)
        requires
            keyed_by_id(old(self)@),
        ensures
            final(self)@ == old(self)@.insert(w@.id, w@),
            keyed_by_id(final(self)@),
    {
        broadcast use vstd::std_specs::hash::group_hash_axioms;

        let id = w.id;
        let ghost wv = w@;
        self.windows.insert(id, w);
        assert(self@ =~= old(self)@.insert(id, wv));
    }

    /// Follows the niri event `u`: updates the known windows and returns the
    /// events that `u` means for the session manager, in order.
    pub fn handle(&mut self, u: NiriUpdate) -> (r: Vec<Event>)
        requires
            keyed_by_id(old(self)@),
            workspace_ids_fit(u),
        ensures
            keyed_by_id(final(self)@),
            final(self)@ == niri_step(old(self)@, u).0,
            events_view(r@) == niri_step(old(self)@, u).1,
    {
        broadcast use vstd::std_specs::hash::group_hash_axioms;

        let mut events: Vec<Event> = Vec::new();
        match u {
            NiriUpdate::WindowsChanged(ws) => {
                let ghost wv = windows_view(ws@);
                let ghost m0 = self@;
                let mut i: usize = 0;
                while i < ws.len()
                    invariant
                        i <= ws@.len(),
                        wv == windows_view(ws@),
                        keyed_by_id(self@),
                        (self@, events_view(events@)) == windows_changed(m0, wv.take(i as int)),
                    decreases ws@.len() - i,
                {
                    let w = ws[i].duplicate();
                    assert(wv.take(i + 1).drop_last() =~= wv.take(i as int));
                    assert(wv.take(i + 1).last() == w@);
                    if w.is_focused {
                        let app = match &w.app_id {
                            Some(a) => Some(a.clone()),
                            None => None,
                        };
                        let ghost before = events@;
                        events.push(Event::ActiveWindowChanged(app));
                        assert(events_view(events@) =~= events_view(before).push(
                            EventModel::ActiveWindowChanged(w@.app_id),
                        ));
                    }
                    self.record(w);
                    i = i + 1;
                }
                assert(wv.take(ws@.len() as int) =~= wv);
            },
            NiriUpdate::WindowOpenedOrChanged(w) => {
                self.record(w);
            },
            NiriUpdate::WindowClosed(id) => {
                self.windows.remove(&id);
                assert(self@ =~= old(self)@.remove(id));
            },
            NiriUpdate::WindowFocusChanged(f) => match f {
                Some(id) => {
                    let found = match self.windows.get(&id) {
                        Some(w) => Some(w.duplicate()),
                        None => None,
                    };
                    match found {
                        Some(w) => {
                            let app = match &w.app_id {
                                Some(a) => Some(a.clone()),
                                None => None,
                            };
                            let mut w2 = w;
                            w2.is_focused = true;
                            self.record(w2);
                            events.push(Event::ActiveWindowChanged(app));
                            assert(events_view(events@) =~= seq![
                                EventModel::ActiveWindowChanged(old(self)@[id].app_id),
                            ]);
                        },
                        None => {
                            assert(events_view(events@) =~= Seq::<EventModel>::empty());
                        },
                    }
                },
                None => {
                    events.push(Event::ActiveWindowChanged(None));
                    assert(events_view(events@) =~= seq![EventModel::ActiveWindowChanged(None)]);
                },
            },
            NiriUpdate::WorkspacesChanged(ws) => match first_focused_id(&ws) {
                Some(id) => {
                    events.push(Event::WorkspaceChanged(id as i32));
                    assert(events_view(events@) =~= seq![EventModel::WorkspaceChanged(id as i32)]);
                },
                None => {
                    assert(events_view(events@) =~= Seq::<EventModel>::empty());
                },
            },
            NiriUpdate::WorkspaceActivated { id, focused } => {
                if focused {
                    events.push(Event::WorkspaceChanged(id as i32));
                    assert(events_view(events@) =~= seq![EventModel::WorkspaceChanged(id as i32)]);
                } else {
                    assert(events_view(events@) =~= Seq::<EventModel>::empty());
                }
            },
            NiriUpdate::Other => {
                assert(events_view(events@) =~= Seq::<EventModel>::empty());
            },
        }
        events
    }
}

} // verus!
