use spyland::config::section_parts;
use spyland::niri::{NiriUpdate, WindowInfo, WindowTracker, WorkspaceInfo};
use spyland::paths::{config_path, database_path, join_path, socket_path, PathError};
use spyland::report::{
    human_duration, needs_heading, rank_entries, session_line, session_listing, state_label,
};
use spyland::session::{Event, Session, State};

fn s(x: &str) -> Option<String> {
    Some(x.to_string())
}

#[test]
fn human_duration_formats() {
    assert_eq!(human_duration(0), "0s");
    assert_eq!(human_duration(59), "59s");
    assert_eq!(human_duration(60), "1m");
    assert_eq!(human_duration(3600), "1h");
    assert_eq!(human_duration(3661), "1h1m1s");
    assert_eq!(human_duration(7325), "2h2m5s");
    assert_eq!(human_duration(36000), "10h");
    assert_eq!(human_duration(3605), "1h5s");
}

#[test]
fn ranking_by_time_and_by_name() {
    let entries = vec![("kitty".to_string(), 50), ("firefox".to_string(), 32), ("tg".to_string(), 16)];
    let by_time_asc = rank_entries(entries.clone(), true, true);
    assert_eq!(by_time_asc.iter().map(|e| e.1).collect::<Vec<_>>(), vec![16, 32, 50]);
    let by_time_desc = rank_entries(entries.clone(), false, true);
    assert_eq!(by_time_desc.iter().map(|e| e.1).collect::<Vec<_>>(), vec![50, 32, 16]);
    let by_name_asc = rank_entries(entries.clone(), true, false);
    assert_eq!(
        by_name_asc.iter().map(|e| e.0.as_str()).collect::<Vec<_>>(),
        vec!["firefox", "kitty", "tg"]
    );
    let by_name_desc = rank_entries(entries, false, false);
    assert_eq!(
        by_name_desc.iter().map(|e| e.0.as_str()).collect::<Vec<_>>(),
        vec!["tg", "kitty", "firefox"]
    );
}

#[test]
fn ranking_by_name_puts_prefix_first() {
    let entries = vec![("ab".to_string(), 1), ("a".to_string(), 2), ("B".to_string(), 3)];
    let r = rank_entries(entries, true, false);
    assert_eq!(r.iter().map(|e| e.0.as_str()).collect::<Vec<_>>(), vec!["B", "a", "ab"]);
}

#[test]
fn database_paths() {
    assert_eq!(database_path(s("/db.sqlite"), s("/state"), s("/home/u")), Ok("/db.sqlite".into()));
    assert_eq!(
        database_path(None, s("/state"), s("/home/u")),
        Ok("/state/spyland/sessions.sqlite".into())
    );
    assert_eq!(
        database_path(None, None, s("/home/u")),
        Ok("/home/u/.local/state/spyland/sessions.sqlite".into())
    );
    assert_eq!(database_path(None, None, None), Err(PathError::HomeNotSet));
}

#[test]
fn config_and_socket_paths() {
    assert_eq!(
        config_path(None, s("/cfg/"), None),
        Ok("/cfg/spyland/config.toml".into())
    );
    assert_eq!(
        config_path(None, None, s("/home/u/")),
        Ok("/home/u/.config/spyland/config.toml".into())
    );
    assert_eq!(config_path(s("c.toml"), None, None), Ok("c.toml".into()));
    assert_eq!(socket_path(None, s("/run/user/1000")), Ok("/run/user/1000/spyland.sock".into()));
    assert_eq!(socket_path(s("/tmp/s"), None), Ok("/tmp/s".into()));
    assert_eq!(socket_path(None, None), Err(PathError::RuntimeDirNotSet));
}

#[test]
fn joining_paths() {
    assert_eq!(join_path("", "a/b"), "a/b");
    assert_eq!(join_path("/x/", "a"), "/x/a");
    assert_eq!(join_path("/x", "a"), "/x/a");
}

#[test]
fn section_names_split_on_dots() {
    assert_eq!(section_parts("core"), vec!["core"]);
    assert_eq!(section_parts("backend.niri"), vec!["backend", "niri"]);
    assert_eq!(section_parts("frontend.cli"), vec!["frontend", "cli"]);
    assert_eq!(section_parts("a..b"), vec!["a", "", "b"]);
    assert_eq!(section_parts(""), vec![""]);
}

fn window(id: u64, app: &str, focused: bool) -> WindowInfo {
    WindowInfo { id, app_id: Some(app.into()), is_focused: focused }
}

#[test]
fn window_test() {
    let mut t = WindowTracker::new();
    let app_id = "test_app_0".to_string();
    assert!(t.handle(NiriUpdate::WindowOpenedOrChanged(window(0, &app_id, false))).is_empty());
    assert_eq!(
        t.handle(NiriUpdate::WindowFocusChanged(Some(0))),
        vec![Event::ActiveWindowChanged(Some(app_id))]
    );
}

#[test]
fn workspace_test() {
    let mut t = WindowTracker::new();
    const WORKSPACE_ID: u64 = 0;
    assert_eq!(
        t.handle(NiriUpdate::WorkspaceActivated { id: WORKSPACE_ID, focused: true }),
        vec![Event::WorkspaceChanged(WORKSPACE_ID.try_into().unwrap())]
    );
}

#[test]
fn niri_window_list_reports_focused_windows() {
    let mut t = WindowTracker::new();
    let evs = t.handle(NiriUpdate::WindowsChanged(vec![
        window(1, "a", false),
        window(2, "b", true),
        WindowInfo { id: 3, app_id: None, is_focused: true },
    ]));
    assert_eq!(
        evs,
        vec![Event::ActiveWindowChanged(Some("b".into())), Event::ActiveWindowChanged(None)]
    );
    assert_eq!(
        t.handle(NiriUpdate::WindowFocusChanged(Some(1))),
        vec![Event::ActiveWindowChanged(Some("a".into()))]
    );
    assert!(t.handle(NiriUpdate::WindowClosed(1)).is_empty());
    assert!(t.handle(NiriUpdate::WindowFocusChanged(Some(1))).is_empty());
    assert_eq!(
        t.handle(NiriUpdate::WindowFocusChanged(None)),
        vec![Event::ActiveWindowChanged(None)]
    );
}

#[test]
fn niri_workspaces() {
    let mut t = WindowTracker::new();
    let evs = t.handle(NiriUpdate::WorkspacesChanged(vec![
        WorkspaceInfo { id: 4, is_focused: false },
        WorkspaceInfo { id: 5, is_focused: true },
        WorkspaceInfo { id: 6, is_focused: true },
    ]));
    assert_eq!(evs, vec![Event::WorkspaceChanged(5)]);
    assert!(t.handle(NiriUpdate::WorkspaceActivated { id: 7, focused: false }).is_empty());
    assert!(t.handle(NiriUpdate::Other).is_empty());
}

#[test]
fn session_lines() {
    let s = Session {
        start: 100,
        end: 100 + 3725,
        state: State::Active { app_id: "kitty".into(), workspace: Some(-3) },
    };
    assert_eq!(session_line("09:05", &s), "@--- (09:05) 1h2m5s: kitty, -3");
    let idle = Session { start: 5, end: 5, state: State::Idle };
    assert_eq!(session_line("23:59", &idle), "@--- (23:59) 0s: Idle");
    assert_eq!(
        state_label(&State::Active { app_id: "firefox".into(), workspace: None }),
        "firefox"
    );
    assert_eq!(
        state_label(&State::Active { app_id: "code".into(), workspace: Some(12) }),
        "code, 12"
    );
}

#[test]
fn ranking_keeps_ties_in_input_order() {
    let entries = vec![("b".to_string(), 5), ("a".to_string(), 5), ("c".to_string(), 1)];
    let r = rank_entries(entries, true, true);
    assert_eq!(r.iter().map(|e| e.0.as_str()).collect::<Vec<_>>(), vec!["c", "b", "a"]);
}

fn listed(start: i64, end: i64, state: State) -> Session {
    Session { start, end, state }
}

#[test]
fn session_listing_headings_per_day() {
    let sessions = vec![
        listed(0, 90, State::Active { app_id: "firefox".into(), workspace: Some(1) }),
        listed(100, 160, State::Idle),
        listed(86400, 86405, State::Active { app_id: "kitty".into(), workspace: None }),
    ];
    let text = session_listing(&sessions, 0).unwrap();
    assert_eq!(
        text,
        "|\n|\n#    Thu, 01 January 1970\n|\n|\n@--- (00:00) 1m30s: firefox, 1\n|\n|\n@--- (00:01) 1m: Idle\n|\n|\n#    Fri, 02 January 1970\n|\n|\n@--- (00:00) 5s: kitty\n"
    );
}

#[test]
fn session_listing_uses_local_offset() {
    let sessions = vec![
        listed(84600, 84700, State::Idle),
        listed(86400, 86460, State::Idle),
    ];
    let text = session_listing(&sessions, 3600).unwrap();
    assert_eq!(
        text,
        "|\n|\n#    Fri, 02 January 1970\n|\n|\n@--- (00:30) 1m40s: Idle\n|\n|\n@--- (01:00) 1m: Idle\n"
    );
    let utc = session_listing(&sessions, 0).unwrap();
    assert!(utc.starts_with("|\n|\n#    Thu, 01 January 1970\n"));
    assert!(utc.contains("#    Fri, 02 January 1970"));
}

#[test]
fn session_listing_empty_and_out_of_range() {
    assert_eq!(session_listing(&vec![], 0), Some(String::new()));
    assert_eq!(session_listing(&vec![listed(i64::MAX, i64::MAX, State::Idle)], 0), None);
}

#[test]
fn headings_open_new_days() {
    assert!(needs_heading(None, (2026, 5)));
    assert!(needs_heading(Some((2026, 4)), (2026, 5)));
    assert!(needs_heading(Some((2025, 5)), (2026, 5)));
    assert!(!needs_heading(Some((2026, 5)), (2026, 5)));
}
