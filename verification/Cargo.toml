[package]
name = "vila"
version = "0.1.0"
edition = "2021"
publish = false

[dependencies]
futures = "=0.3.34"
indicatif = "=0.17.11"
log = "=0.4.34"
reqwest = { version = "=0.12.28", default-features = false, features = ["json"] }
serde = { version = "=1.0.229", features = ["derive"] }
serde_json = "=1.0.154"
thiserror = "=1.0.69"
