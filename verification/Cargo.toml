[package]
name = "closured"
version = "0.1.0"
edition = "2021"
publish = false

[dependencies]
anyhow = "1"
aya = "=0.14.0"
aya-log = "=0.3.0"
chrono = "=0.4.45"
clap = { version = "4", features = ["derive"] }
env_logger = "*"
libc = "0.2"
log = "0.4"
serde = { version = "1", features = ["derive"] }
serde_json = "1"
tokio = { version = "1", features = ["macros", "rt", "rt-multi-thread", "net", "signal", "sync", "time", "io-util"] }
