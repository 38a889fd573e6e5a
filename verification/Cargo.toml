[package]
name = "pachadb"
version = "0.1.0"
edition = "2021"
publish = false

[dependencies]
uuid = { version = "=1.29.0", features = ["v4"] }
time = { version = "=0.3.55", features = ["serde"] }
serde = { version = "=1.0.229", features = ["derive"] }
serde_derive = "=1.0.229"
serde_json = "=1.0.154"
thiserror = "=1.0.69"
anyhow = "=1.0.104"
structopt = "0.3"
reqwest = { version = "0.12", default-features = false, features = ["gzip", "brotli", "rustls-tls"] }
tokio = { version = "1", features = ["rt", "macros"] }
whoami = "1"
rustyline = "14"
env_logger = "0.10"
human-panic = "1"
log = "0.4"
