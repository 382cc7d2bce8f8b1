[package]
name = "curl_parser"
version = "0.1.0"
edition = "2021"

[dependencies]
nom = "7"

[dev-dependencies]
anyhow = "1"
serde_json = "1"
