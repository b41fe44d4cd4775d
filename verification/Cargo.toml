[package]
name = "taska"
version = "0.1.0"
edition = "2021"
publish = false

[dependencies]
chrono = "=0.4.45"
clap = { version = "=4.6.7", features = ["derive"] }
clap_complete = { version = "=4.6.11", features = ["unstable-dynamic"] }
petgraph = "=0.8.3"
regex = "=1.13.1"
self_update = { version = "=0.44.0", default-features = false, features = ["archive-tar", "compression-flate2", "rustls", "ureq"] }
serde = { version = "=1.0.229", features = ["derive"] }
serde_json = "=1.0.154"
toml = "=0.8.23"
toml_edit = "=0.22.27"
