[package]
name = "docsearch"
version = "0.1.0"
edition = "2021"
publish = false

[dependencies]
rust-stemmers = "1.2"
serde = { version = "1", features = ["derive"] }
serde_json = "1"
tiny_http = "0.12"
xml-rs = "0.8"
poppler-rs = "*"
