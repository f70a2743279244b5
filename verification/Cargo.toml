[package]
name = "kvs"
version = "0.1.0"
edition = "2021"
publish = false

[dependencies]
bincode = "1.3"
clap = { version = "3.2", features = ["derive"] }
failure = "0.1"
serde = { version = "1", features = ["derive"] }
serde_repr = "0.1"
