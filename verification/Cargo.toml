[package]
name = "atorrent"
version = "0.1.0"
edition = "2021"
publish = false

[dependencies]
sha1 = "0.10"
rand = "0.8"
url = "2"
tokio = { version = "1", features = ["full"] }
bencode = "*"
bytes = "1"
