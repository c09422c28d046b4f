[package]
name = "minefield_core"
version = "0.1.0"
edition = "2021"
publish = false

[dependencies]
rand = "0.7"
rand_distr = "0.2"
log = "0.4"
env_logger = "0.7"
failure = "0.1"
failure_derive = "0.1"
clap = "2"
serde = { version = "1", features = ["derive"] }
serde_json = "1"
websocket = { version = "0.24", default-features = false, features = ["sync", "sync-ssl"] }
tokio = { version = "1", features = ["full"] }
tokio-tungstenite = "0.20"
hyper = { version = "0.14", features = ["full"] }
hyper-staticfile = "0.9"
futures = "0.3"
rusqlite = { version = "0.29", features = ["bundled"] }
sha1 = "0.6"
base64 = "0.12"
