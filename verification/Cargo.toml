[package]
name = "download_pool"
version = "0.1.0"
edition = "2021"
publish = false

[dependencies]
crossterm = "*"
futures = "*"
ratatui = "*"
reqwest = { version = "*", default-features = false, features = ["stream"] }
tokio = { version = "*", features = ["rt-multi-thread", "macros", "time"] }
