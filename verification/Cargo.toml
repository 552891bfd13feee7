[package]
name = "tedge_core"
version = "0.1.0"
edition = "2021"
publish = false

[dependencies]
reqwest = { version = "*", default-features = false }
inotify = "*"
futures = "*"
tokio = { version = "*", default-features = false, features = ["rt", "macros"] }
async-stream = "*"
