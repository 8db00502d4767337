[package]
name = "finguard"
version = "0.1.0"
edition = "2021"
publish = false

[dependencies]
axum = "0.8"
chrono = "0.4"
dirs = "6"
indexmap = { version = "2", features = ["serde"] }
polars = { version = "*", default-features = false, features = ["lazy", "parquet", "strings", "regex", "dtype-date", "temporal", "diagonal_concat"] }
reqwest = { version = "0.12", default-features = false, features = ["json"] }
serde = { version = "1", features = ["derive"] }
serde_json = "1"
thiserror = "2"
tokio = { version = "1", features = ["macros", "rt-multi-thread", "net", "sync", "time"] }
uuid = { version = "1", features = ["v4"] }
