[package]
name = "bundlermd"
version = "0.1.0"
edition = "2021"
publish = false

[dependencies]
linguist = "=0.1.17"
pulldown-cmark = { version = "=0.13.6", default-features = false }
memchr = "=2.8.3"
encoding_rs_io = "=0.1.8"
serde = { version = "=1.0.229", features = ["derive"] }
serde_json = "=1.0.154"
url = "2"
