[package]
name = "chorus_store"
version = "0.1.0"
edition = "2021"
publish = false

[dependencies]
heed = "=0.11.0"
hyper = { version = "0.14", features = ["server", "http1", "tcp"] }
tokio = { version = "1", features = ["rt-multi-thread", "net", "macros"] }
serde = { version = "1", features = ["derive"] }
serde_json = "1"
ron = "0.8"
log = "0.4"
env_logger = "0.10"
mime2ext = "0.1"

[dev-dependencies]
tempfile = "3"
