[package]
name = "fuel_genesis"
version = "0.1.0"
edition = "2021"
publish = false

[dependencies]
anyhow = "1"
async-trait = "0.1"
fuel-core-chain-config = "*"
fuel-core-services = "*"
fuel-core-storage = "*"
fuel-core-types = "*"
serde = { version = "1", features = ["derive"] }
thiserror = "1"
tokio = { version = "1", features = ["rt", "sync"] }
tokio-rayon = "2"
tracing = "0.1"

[dev-dependencies]
rand = "0.8"
