//! Screen time tracking for Wayland compositors: the session engine, its
//! analytics, the database and IPC representations, and the decisions that
//! the daemon, the command line tool and the compositor backends make.

pub mod session;
pub mod manager;
pub mod analytics;
pub mod db;
pub mod protocol;
pub mod text;
pub mod daemon;
pub mod paths;
pub mod config;
pub mod report;
pub mod niri;
