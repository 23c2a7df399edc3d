[package]
name = "flowforge"
version = "0.1.0"
edition = "2021"
publish = false

[dependencies]
chrono = "0.4"
cron = "*"
dirs = "*"
futures-util = "0.3"
globset = "0.4"
inotify = "*"
notify = "*"
regex = "1"
reqwest = { version = "0.12", default-features = false, features = ["blocking", "json", "stream"] }
rusqlite = { version = "*", features = ["bundled"] }
serde = { version = "1", features = ["derive"] }
serde_json = "1"
sha2 = "0.10"
thiserror = "*"
tokio = { version = "1", features = ["rt-multi-thread", "macros", "sync", "time", "fs", "io-util"] }
tokio-util = "0.7"
url = "2"
uuid = { version = "1", features = ["v4"] }
