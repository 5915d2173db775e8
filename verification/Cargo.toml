[package]
name = "edge_doh"
version = "0.1.0"
edition = "2021"
publish = false

[dependencies]
anyhow = "1"
base64 = "0.22"
clap = { version = "4", features = ["derive"] }
env_logger = "0.11"
hex = "0.4"
hickory-proto = "*"
idna = "1"
js-sys = "0.3"
log = "0.4"
reqwest = { version = "*", features = ["blocking"] }
serde = { version = "1", features = ["derive"] }
serde_json = "1"
sha2 = "*"
toml = "*"
worker = "*"
zerotrie = { version = "0.2", features = ["alloc"] }
