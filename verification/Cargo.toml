[package]
name = "serde_flow"
version = "1.1.0"
edition = "2021"
publish = false

[dependencies]
crc = "*"
serde = { version = "*", features = ["derive"] }
serde_json = "*"
thiserror = "*"
tokio = { version = "*", features = ["fs"] }
