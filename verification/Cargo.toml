[package]
name = "file_cacher"
version = "0.1.0"
edition = "2021"
publish = false

[dependencies]
anyhow = "1"
clap = { version = "4", features = ["derive"] }
human_bytes = "*"
props-rs = "*"
rand = "0.8"
reqwest = { version = "*", default-features = false }
timeago = "*"
tokio = { version = "1", features = ["rt-multi-thread", "macros"] }
