[package]
name = "cascadia-engine-sparse-moe"
version = "0.1.0"
edition = "2021"
publish = false

[dependencies]
lru = "0.12"
serde = { version = "1", features = ["derive"] }
serde_json = "1"
half = "2"
rayon = "1"
memmap2 = "0.9"
thiserror = "1"
tracing = "0.1"
tokio = { version = "1", default-features = false, features = ["rt", "sync", "time"] }
futures = { version = "0.3", default-features = false, features = ["std"] }
