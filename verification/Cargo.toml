[package]
name = "arbitrage_engine"
version = "0.1.0"
edition = "2021"
publish = false

[dependencies]
crossbeam = "=0.8.5"
num_cpus = "=1.17.0"
serde = { version = "1", features = ["derive"] }
tokio = { version = "1", features = ["full"] }
tracing = "*"
tracing-subscriber = "*"
warp = { version = "=0.4.3", features = ["server"] }
