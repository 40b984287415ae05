[package]
name = "rust_finder"
version = "0.1.0"
edition = "2021"
publish = false

[dependencies]
fuzzy-matcher = "0.3"
rayon = "1"
num_cpus = "1"
serde = { version = "1", features = ["derive"] }
serde_json = "1"
tokio = { version = "1", features = ["fs", "io-util", "sync", "rt-multi-thread", "macros"] }
once_cell = "1"
dirs = "5"
