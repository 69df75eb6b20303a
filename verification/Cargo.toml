[package]
name = "file_search"
version = "0.1.0"
edition = "2021"
publish = false

[dependencies]
base64 = "0.13"
tokio = { version = "1", features = ["full"] }
futures = "0.3"
num_cpus = "1"
rusqlite = { version = "0.31", features = ["bundled"] }
governor = "0.6"
reqwest = { version = "0.11", default-features = false, features = ["json", "rustls-tls"] }
serde_json = "1"
yup-oauth2 = "8"
image = "0.24"
