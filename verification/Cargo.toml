[package]
name = "active_provider_manager"
version = "0.1.0"
edition = "2021"
publish = false

[dependencies]
log = "0.4"
tokio = { version = "1", features = ["sync", "rt"] }
