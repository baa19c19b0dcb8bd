[package]
name = "unleash_types"
version = "0.1.0"
edition = "2021"
publish = false

[dependencies]
base64 = "0.22"
chrono = { version = "0.4", features = ["serde", "clock"] }
derive_builder = "0.20"
serde = { version = "1.0", features = ["derive"] }
serde_json = "1.0"
utoipa = { version = "5", features = ["chrono"] }
xxhash-rust = { version = "0.8", features = ["xxh3"] }
