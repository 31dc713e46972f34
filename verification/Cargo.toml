[package]
name = "codex_manager"
version = "0.1.0"
edition = "2021"
publish = false

[dependencies]
dirs = "6"
log = "0.4"
notify = "8"
reqwest = { version = "0.12", default-features = false, features = ["rustls-tls"] }
serde = { version = "1", features = ["derive"] }
serde_json = "1"
tokio = { version = "1", features = ["time"] }
