[package]
name = "reflet"
version = "0.1.0"
edition = "2021"
publish = false

[dependencies]
blake3 = "1"
crc32fast = "1"
dunce = "1"
globset = "0.4"
serde = { version = "1", features = ["derive"] }
serde_json = "1"
chrono = "0.4"
walkdir = "2"
filetime = "0.2"
trash = "5"
zip = "2"
uuid = { version = "1", features = ["v4"] }
tracing = "0.1"
tracing-subscriber = "0.3"
tracing-appender = "0.2"
tokio = { version = "1", features = ["sync", "time", "rt", "macros"] }
notify = "8"
