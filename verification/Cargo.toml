[package]
name = "postflight"
version = "0.1.0"
edition = "2021"
publish = false

[dependencies]
anyhow = "1"
bytesize = "2"
chrono = { version = "0.4", features = ["serde"] }
clap = { version = "4", features = ["derive"] }
colored = "3"
dirs = "6"
inotify = "0.11"
libc = "0.2"
nix = { version = "0.29", features = ["poll", "process", "signal", "term", "fs"] }
serde = { version = "1", features = ["derive"] }
serde_json = "1"
signal-hook = "0.3"
similar = "2"
toml = "0.8"
