[package]
name = "pyscope"
version = "0.1.0"
edition = "2021"
publish = false

[dependencies]
anyhow = "1"
clap = { version = "4", features = ["derive"] }
flate2 = "1"
lsp-types = "=0.95.1"
reqwest = { version = "0.12", default-features = false, features = ["blocking", "json", "rustls-tls"] }
rustpython-parser = "0.4"
serde = { version = "1", features = ["derive"] }
serde_json = "1"
walkdir = "2"
