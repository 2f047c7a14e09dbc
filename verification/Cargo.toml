[package]
name = "oxstat"
version = "0.1.0"
edition = "2021"
publish = false

[dependencies]
anyhow = "1"
arrow = "=53.4.1"
calamine = "0.30"
clap = { version = "4", features = ["derive"] }
parquet = "=53.4.1"
serde = { version = "1", features = ["derive"] }
serde_json = "1"
tracing-subscriber = "0.3"
