[package]
name = "map_reduce_rs"
version = "0.1.0"
edition = "2021"
publish = false

[dependencies]
anyhow = "1"
futures = "0.3"
regex = "1"
tarpc = { version = "0.27", features = ["full"] }
tokio = { version = "1", features = ["full"] }
