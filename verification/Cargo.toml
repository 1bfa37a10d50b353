[package]
name = "cupel"
version = "0.1.0"
edition = "2021"
publish = false

[dependencies]
unicode-width = "0.2"
grep-regex = "0.1"
grep-matcher = "0.1"
grep-searcher = "0.1"
ignore = "0.4"
serde = { version = "1", features = ["derive"] }
serde_json = "1"
tokio = { version = "1", default-features = false, features = ["rt-multi-thread", "macros", "sync", "time", "process", "io-util"] }
tokio-util = "0.7"
futures-util = { version = "0.3", default-features = false, features = ["std"] }
ratatui = "0.29"
reqwest = { version = "0.12", default-features = false, features = ["json"] }
thiserror = "2"
async-trait = "0.1"
tracing = "0.1"
tracing-subscriber = { version = "0.3", default-features = false, features = ["fmt", "std"] }
