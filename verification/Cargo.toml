[package]
name = "ghosttype"
version = "0.2.0"
edition = "2021"
publish = false

[dependencies]
regex = "1.12"
rusqlite = { version = "0.32", features = ["bundled"] }
serde = { version = "1", features = ["derive"] }
serde_json = "1"
toml = "0.8"
crossbeam-channel = "0.5"
once_cell = "1"
