[package]
name = "backtester"
version = "0.1.0"
edition = "2021"
publish = false

[dependencies]
async-trait = "0.1"
bdays = "*"
chrono = "0.4"
chrono-tz = "*"
csv = "1"
futures = "0.3"
num-traits = "0.2"
rust_decimal = "1"
serde = { version = "1", features = ["derive"] }
serde_json = "1"
thiserror = "1"
tokio = { version = "1", features = ["sync", "rt", "macros"] }
tracing = "0.1"
uuid = { version = "1", features = ["v4"] }
