[package]
name = "hydra"
version = "0.1.0"
edition = "2021"
publish = false

[dependencies]
bytes = "1"
ring = "0.17"
crossbeam-queue = "0.3"
rand = "0.8"
base64 = "0.21"
url = "2"
serde = { version = "1", features = ["derive"] }
serde_json = "1"
thiserror = "1"
tokio = { version = "1", features = ["full"] }
quinn = "0.10"
rustls = { version = "0.21", features = ["dangerous_configuration"] }
rcgen = "0.11"
tracing = "0.1"
tracing-subscriber = "0.3"
