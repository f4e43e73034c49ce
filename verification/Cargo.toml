[package]
name = "fcheckd"
version = "0.1.0"
edition = "2021"
publish = false

[dependencies]
nix = { version = "0.31", features = ["inotify", "signal", "event", "process", "fs"] }
serde = { version = "=1.0.229", features = ["derive"] }
toml = "=1.1.8"
clap = { version = "=4.6.7", features = ["derive"] }
chrono = "=0.4.45"

[dev-dependencies]
tempfile = "=3.27.0"
