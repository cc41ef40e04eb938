[package]
name = "cbus_gateway"
version = "0.1.0"
edition = "2021"
publish = false

[dependencies]
bytes = "1"
hyper = { version = "0.14", features = ["full"] }
pretty_env_logger = "0.5"
tokio = { version = "1", features = ["full"] }
warp = "0.3"

[dev-dependencies]
nom = "7"
