[package]
name = "jsonrpsee_core"
version = "0.1.0"
edition = "2021"
publish = false

[dependencies]
futures-channel = "0.3"
rand = "0.8"
url = "2"
serde_json = "1"
