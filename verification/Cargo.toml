[package]
name = "htmlp"
version = "0.2.0"
edition = "2021"
publish = false

[dependencies]
xmlparser = "0.13"
sha2 = "0.10"
tiktoken-rs = "*"
serde = { version = "1", features = ["derive"] }
serde_json = "1"
