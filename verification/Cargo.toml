[package]
name = "btree_dag"
version = "0.1.0"
edition = "2021"
publish = false

[dependencies]
serde = { version = "=1.0.229", features = ["derive"] }
try_encoding_from = { version = "=0.1.4", features = ["json", "yaml"] }
