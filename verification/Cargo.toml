[package]
name = "liveness_registry"
version = "0.1.0"
edition = "2021"
publish = false

[dependencies]
axum = "*"
clap = { version = "*", features = ["derive", "env"] }
dotenvy = "*"
env_logger = "*"
log = "*"
tokio = { version = "*", features = ["rt-multi-thread", "macros", "net"] }
