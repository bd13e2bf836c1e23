[package]
name = "icm_store"
version = "0.1.0"
edition = "2021"
publish = false

[dependencies]
chrono = { version = "0.4", features = ["serde"] }
lru = "0.12"
rusqlite = { version = "0.34", features = ["bundled"] }
serde = { version = "1", features = ["derive"] }
serde_json = "1"
sha2 = "0.10"
sqlite-vec = "0.1"
tracing = "0.1"
ulid = "1"
zerocopy = { version = "0.8", features = ["derive"] }
