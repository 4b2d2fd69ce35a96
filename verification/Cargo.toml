[package]
name = "tagtools"
version = "0.1.0"
edition = "2021"
publish = false

[dependencies]
anyhow = "*"
argh = "*"
capnp = "*"
chrono = { version = "*", features = ["serde"] }
flume = "*"
humantime = "*"
humantime-serde = "*"
serde = { version = "*", features = ["derive"] }
serde_json = "*"
zstd = "*"
