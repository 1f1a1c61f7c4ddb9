[package]
name = "cairn"
version = "0.1.0"
edition = "2021"
publish = false

[dependencies]
blake3 = "1"
unicode-normalization = "0.1"
serde = { version = "1", features = ["derive"] }
rusqlite = { version = "0.32", features = ["bundled"] }
