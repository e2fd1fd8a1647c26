[package]
name = "spyland"
version = "0.1.0"
edition = "2021"
publish = false

[dependencies]
anyhow = "1"
clap = { version = "4", features = ["derive", "env"] }
env_logger = "*"
log = "0.4"
niri-ipc = "*"
nix = { version = "*", features = ["socket"] }
serde = { version = "1", features = ["derive"] }
serde_json = "1"
sqlx = { version = "0.8", default-features = false, features = ["sqlite", "runtime-tokio"] }
tokio = { version = "1", features = ["rt", "macros", "time"] }
toml = "*"
time = { version = "0.3", features = ["formatting", "parsing", "local-offset"] }
