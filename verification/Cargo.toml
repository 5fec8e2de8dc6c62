[package]
name = "mlat_server"
version = "4.1.0"
edition = "2021"
publish = false

[dependencies]
chrono = "0.4"
dashmap = "6"
env_logger = "0.11"
flate2 = "1"
log = "0.4"
mimalloc = "0.1"
nalgebra = "0.33"
parking_lot = "0.12"
serde = { version = "1", features = ["derive"] }
serde_json = "1"
tokio = { version = "1", features = ["full"] }
