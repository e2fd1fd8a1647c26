# spyland

Screen time tracking for Wayland compositors. A compositor backend reports
focus, workspace and idle events to a daemon; the daemon turns them into
sessions and stores them; a command line tool lists the sessions and sums the
time spent in each application.

## Layout

- `src/` is the library, written in Verus and verified:
  - `session.rs`: user states, sessions and compositor events;
  - `manager.rs`: the session manager, the state machine that turns events
    into saved sessions, with its invariants (neighbouring saved sessions never
    share a state, the saved history only grows at its end);
  - `analytics.rs`: screen, idle and per-application time, and grouping of
    sessions by rules;
  - `db.rs`: the database row of a session and query filters;
  - `protocol.rs`: the daemon's answers to its clients and message framing;
  - `daemon.rs`: what the daemon stores after each tick;
  - `config.rs`: the configuration document, read from and written as TOML,
    and its dotted section names;
  - `paths.rs`: where the database, the socket and the configuration live;
  - `report.rs`: durations and session lines as text, the session list with
    its day headings, and ranking of totals;
  - `niri.rs`: the niri backend's window tracking.
- `tests/` runs the library on concrete values.
- `app/` is the programs around the library: argument handling, the SQLite
  database, the Unix socket, the configuration file, the clock and the niri
  event stream.
