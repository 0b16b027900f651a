[package]
name = "misc"
version = "0.1.0"
edition = "2021"
publish = false

[dependencies]
anyhow = "1"
axum = "*"
backtrace = "0.3"
bincode = { version = "2", features = ["serde"] }
bytes = "1"
chrono = "0.4"
console-subscriber = "*"
dirs = "*"
env_logger = "*"
futures = "0.3"
lettre = { version = "*", default-features = false, features = ["smtp-transport", "builder"] }
log = "0.4"
rand = "0.8"
serde = { version = "1", features = ["derive"] }
serde_json = "1"
signal-hook = "0.3"
signal-hook-tokio = { version = "0.3", features = ["futures-v0_3"] }
time = { version = "0.3", features = ["macros", "formatting"] }
tokio = { version = "1", features = ["rt-multi-thread", "sync", "time", "fs", "io-util", "macros"] }
tokio-util = { version = "0.7", features = ["io"] }
toml = "*"
tracing-appender = "0.2"
tracing-subscriber = { version = "0.3", features = ["env-filter", "time"] }
