[package]
name = "mini_search_engine"
version = "0.1.0"
edition = "2021"
publish = false

[dependencies]
murmurhash3 = "*"
html2text = "*"
reqwest = { version = "0.12", default-features = false, features = ["blocking", "rustls-tls"] }
