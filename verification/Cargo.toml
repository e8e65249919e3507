[package]
name = "dnsl"
version = "0.1.0"
edition = "2021"
publish = false

[dependencies]
dotenv = "0.15"
lazy_static = "1"
quick-error = "2"
serde = { version = "1", features = ["derive"] }
serde_yaml = "0.9"
tokio = { version = "1", features = ["full"] }
