//! Where spyland keeps its database, socket and configuration, given the
//! values of the environment variables that decide it.

use vstd::prelude::*;

use crate::text::push_char;

verus! {

/// Why a path could not be determined.
#[derive(Debug, PartialEq, Eq, Structural, Clone, Copy)]
pub enum PathError {
    /// `HOME` is not set (and nothing else decides the path).
    HomeNotSet,
    /// `XDG_RUNTIME_DIR` is not set (and nothing else decides the path).
    RuntimeDirNotSet,
}

/// `rel` appended to the path `base`, with a separator between them when
/// `base` is not empty and does not already end with one (`rel` is relative).
pub open spec fn join(base: Seq<char>, rel: Seq<char>) -> Seq<char> {
    if base.len() > 0 && base.last() != '/' {
        base.push('/') + rel
    } else {
        base + rel
    }
}

/// Appends the relative path `rel` to the path `base`.
pub fn join_path(base: &str, rel: &str) -> (r: String)
    ensures
        r@ == join(base@, rel@),
{
    let mut r = String::from_str(base);
    let n = base.unicode_len();
    if n > 0 && base.get_char(n - 1) != '/' {
        push_char(&mut r, '/');
    }
    r.append(rel);
    r
}

/// The view of an optional string.
pub open spec fn opt_view(o: Option<String>) -> Option<Seq<char>> {
    match o {
        Some(s) => Some(s@),
        None => None,
    }
}

/// The path that `override_var` names, or else `rel_file` under the
/// directory `dir_var`, or else under `home_rel` in the home directory.
pub open spec fn located(
    override_var: Option<Seq<char>>,
    dir_var: Option<Seq<char>>,
    home: Option<Seq<char>>,
    home_rel: Seq<char>,
    rel_file: Seq<char>,
) -> Result<Seq<char>, PathError> {
    match override_var {
        Some(f) => Ok(f),
        None => match dir_var {
            Some(d) => Ok(join(d, rel_file)),
            None => match home {
                Some(h) => Ok(join(join(h, home_rel), rel_file)),
                None => Err(PathError::HomeNotSet),
            },
        },
    }
}

/// The view of a path result.
pub open spec fn path_result_view(r: Result<String, PathError>) -> Result<Seq<char>, PathError> {
    match r {
        Ok(s) => Ok(s@),
        Err(e) => Err(e),
    }
}

fn locate(
    override_var: Option<String>,
    dir_var: Option<String>,
    home: Option<String>,
    home_rel: &str,
    rel_file: &str,
) -> (r: Result<String, PathError>)
    ensures
        path_result_view(r) == located(
            opt_view(override_var),
            opt_view(dir_var),
            opt_view(home),
            home_rel@,
            rel_file@,
        ),
{
    match override_var {
        Some(f) => Ok(f),
        None => match dir_var {
            Some(d) => Ok(join_path(d.as_str(), rel_file)),
            None => match home {
                Some(h) => {
                    let base = join_path(h.as_str(), home_rel);
                    Ok(join_path(base.as_str(), rel_file))
                },
                None => Err(PathError::HomeNotSet),
            },
        },
    }
}

/// The database path: `$SPYLAND_DATABASE`, or else
/// `$XDG_STATE_HOME/spyland/sessions.sqlite`, or else
/// `$HOME/.local/state/spyland/sessions.sqlite`.
pub fn database_path(
    spyland_database: Option<String>,
    xdg_state_home: Option<String>,
    home: Option<String>,
) -> (r: Result<String, PathError>)
    ensures
        path_result_view(r) == located(
            opt_view(spyland_database),
            opt_view(xdg_state_home),
            opt_view(home),
            ".local/state/"@,
            "spyland/sessions.sqlite"@,
        ),
{
    locate(spyland_database, xdg_state_home, home, ".local/state/", "spyland/sessions.sqlite")
}

/// The configuration path: `$SPYLAND_CONFIG`, or else
/// `$XDG_CONFIG_HOME/spyland/config.toml`, or else
/// `$HOME/.config/spyland/config.toml`.
pub fn config_path(
    spyland_config: Option<String>,
    xdg_config_home: Option<String>,
    home: Option<String>,
) -> (r: Result<String, PathError>)
    ensures
        path_result_view(r) == located(
            opt_view(spyland_config),
            opt_view(xdg_config_home),
            opt_view(home),
            ".config/"@,
            "spyland/config.toml"@,
        ),
{
    locate(spyland_config, xdg_config_home, home, ".config/", "spyland/config.toml")
}

/// The socket path: `$SPYLAND_SOCKET`, or else `$XDG_RUNTIME_DIR/spyland.sock`.
pub fn socket_path(spyland_socket: Option<String>, xdg_runtime_dir: Option<String>) -> (r: Result<
    String,
    PathError,
>)
    ensures
        path_result_view(r) == match opt_view(spyland_socket) {
            Some(f) => Ok(f),
            None => match opt_view(xdg_runtime_dir) {
                Some(d) => Ok(join(d, "spyland.sock"@)),
                None => Err(PathError::RuntimeDirNotSet),
            },
        },
{
    match spyland_socket {
        Some(f) => Ok(f),
        None => match xdg_runtime_dir {
            Some(d) => Ok(join_path(d.as_str(), "spyland.sock")),
            None => Err(PathError::RuntimeDirNotSet),
        },
    }
}

} // verus!
