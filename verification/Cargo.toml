[package]
name = "taplo_core"
version = "0.1.0"
edition = "2021"
publish = false

[dependencies]
url = { version = "=2.5.8", features = ["serde"] }
serde = { version = "=1.0.229", features = ["derive"] }
serde_json = "=1.0.154"
globset = "=0.4.21"
regex = "=1.13.1"
thiserror = "=1.0.69"
tracing = "=0.1.44"
anyhow = "=1.0.104"
semver = { version = "=1.0.28", features = ["serde"] }
schemars = "=0.8.22"
tokio = { version = "=1.54.1", default-features = false, features = ["sync", "rt"] }
reqwest = { version = "=0.12.28", default-features = false, features = ["json"] }
either = "=1.19.0"
percent-encoding = "=2.3.2"
indexmap = { version = "=2.14.2", features = ["serde"] }
