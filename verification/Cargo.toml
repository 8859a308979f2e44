[package]
name = "recall"
version = "0.1.0"
edition = "2021"
publish = false

[dependencies]
serde_json = "1"
serde = { version = "1", features = ["derive"] }
rusqlite = { version = "*", features = ["bundled"] }
flate2 = "1"
dirs = "*"
tauri = { version = "2", default-features = false, features = ["wry"] }
