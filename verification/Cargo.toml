[package]
name = "cstylegen"
version = "0.1.0"
edition = "2021"
publish = false

[dependencies]
ahash = { version = "=0.8.12", features = ["serde"] }
anyhow = "=1.0.104"
clap = { version = "=4.6.7", features = ["derive"] }
cssparser = "=0.29.6"
serde = { version = "=1.0.229", features = ["derive"] }
serde_yaml = "=0.9.34"
thiserror = "=1.0.69"
tracing = "=0.1.44"
