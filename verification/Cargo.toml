[package]
name = "majestical_services"
version = "0.1.0"
edition = "2021"
publish = false

[dependencies]
anyhow = "*"
serde = { version = "*", features = ["derive"] }
serde_json = "*"
toml = "*"
thiserror = "*"
walkdir = "*"
xxhash-rust = { version = "*", features = ["xxh3", "xxh64"] }
ulid = "*"
schemars = "*"
