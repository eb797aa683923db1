[package]
name = "binman_core"
version = "0.1.0"
edition = "2021"
publish = false

[dependencies]
base64 = "=0.22.1"
url = "=2.5.8"
serde_json = "=1.0.154"
regex = "=1.13.1"
getrandom = "=0.3.4"
unicode-width = "=0.2.3"
serde = { version = "=1.0.229", features = ["derive"] }
reqwest = { version = "=0.12.28", default-features = false, features = ["blocking", "rustls-tls"] }
chrono = { version = "=0.4.45", default-features = false, features = ["clock", "serde"] }
yaml_serde = "*"
