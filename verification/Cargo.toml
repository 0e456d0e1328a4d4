[package]
name = "ree"
version = "0.1.0"
edition = "2021"
publish = false

[dependencies]
hyper = { version = "=1.11.1", features = ["full"] }
hyper-util = { version = "=0.1.21", features = ["http1", "tokio", "server", "server-graceful"] }
http-body-util = "=0.1.5"
tokio = { version = "=1.53.2", features = ["full"] }
serde = { version = "=1.0.229", features = ["derive"] }
serde_json = "=1.0.151"
async-trait = "=0.1.92"
