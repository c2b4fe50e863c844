[package]
name = "flat_db"
version = "0.1.0"
edition = "2021"
publish = false

[dependencies]
futures = "0.3"
log = "0.4"
miette = "7"
rogue_logging = { version = "=0.7.4", default-features = false }
serde = { version = "1", features = ["derive"] }
serde_yaml = "0.9"
thiserror = "2"
tokio = { version = "1", features = ["fs", "rt", "time"] }
tracing = "0.1"
