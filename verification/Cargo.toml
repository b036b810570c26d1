[package]
name = "edgelink_core"
version = "0.1.0"
edition = "2021"
publish = false

[dependencies]
rand = "=0.8.8"
regex = "=1.13.1"
serde = { version = "=1.0.229", features = ["derive"] }
serde_json = "=1.0.154"
clap = { version = "=4.6.7", features = ["derive"] }
dirs-next = "=2.0.0"
chrono = "=0.4.45"
thiserror = "=1.0.69"
log = "=0.4.35"
anyhow = "1"
config = { version = "*", default-features = false }
tokio = { version = "1", features = ["macros", "rt", "rt-multi-thread", "time", "sync"] }
tokio-util = "0.7"
