[package]
name = "ferrumdb"
version = "0.1.4"
edition = "2021"
publish = false

[dependencies]
aes-gcm = "0.10"
rand = "0.8"
serde_json = "1"
serde = { version = "1", features = ["derive"] }
bincode = "1"
tokio = { version = "1", features = ["full"] }
async-trait = "0.1"
axum = "0.8"
tracing = "0.1"
tracing-subscriber = { version = "0.3", features = ["env-filter"] }
clap = { version = "4", features = ["derive"] }
rustyline = "14"

[dev-dependencies]
