[package]
name = "sift"
version = "0.1.0"
edition = "2021"
publish = false

[dependencies]
blake3 = "1"
time = { version = "0.3", features = ["formatting", "parsing", "macros"] }
serde = { version = "1", features = ["derive"] }
serde_json = "1"
clap = { version = "4", features = ["derive"] }
dirs = "*"
thiserror = "2"
ureq = "3"
duckdb = "1"
