[package]
name = "eenv"
version = "0.1.0"
edition = "2021"
publish = false

[dependencies]
blake3 = "*"
chacha20poly1305 = "0.10"
clap = { version = "4", features = ["derive"] }
colored = "*"
ignore = "*"
rand = "0.9"
serde_json = "1"
