[package]
name = "coordinator"
version = "0.1.0"
edition = "2021"
publish = false

[dependencies]
yaml-rust = "0.4"
serde = { version = "1", features = ["derive"] }
serde_json = "1"
tokio = { version = "1", features = ["macros", "rt-multi-thread", "time"] }
axum = "0.6"
reqwest = { version = "0.11", default-features = false, features = ["json"] }
env_logger = "0.10"
log = "0.4"
