[package]
name = "iroh_identity"
version = "0.1.0"
edition = "2021"
publish = false

[dependencies]
iroh-base = { version = "=1.4.1", default-features = false, features = ["key"] }
url = "=2.5.8"
reqwest = { version = "=0.12.28", default-features = false, features = ["rustls-tls"] }
rustls = "=0.23.46"
