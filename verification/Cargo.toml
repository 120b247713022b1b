[package]
name = "ctx"
version = "0.1.0"
edition = "2021"
publish = false

[dependencies]
harper-core = { version = "=0.30.0", default-features = false }
itertools = "=0.15.0"
url = "=2.5.8"
owo-colors = "=4.4.0"
serde = { version = "=1.0.229", features = ["derive"] }
serde_json = "=1.0.154"
reqwest = { version = "0.12", default-features = false, features = ["blocking", "json", "rustls-tls"] }
