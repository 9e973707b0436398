[package]
name = "waf_gateway"
version = "0.1.0"
edition = "2021"
publish = false

[dependencies]
lazy_static = "1"
notify = "6"
openssl = "0.10"
serde = { version = "1", features = ["derive"] }
serde_yaml = "0.9"
tokio = { version = "1", features = ["full"] }
tokio-openssl = "0.6"
