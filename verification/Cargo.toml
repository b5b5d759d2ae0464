[package]
name = "ct_ext_search"
version = "0.1.0"
edition = "2021"
publish = false

[dependencies]
anyhow = "*"
base64 = "0.13"
clap = { version = "*", features = ["derive"] }
ctclient = "*"
openssl = "*"
pem = "0.8"
reqwest = { version = "*", features = ["blocking", "json"] }
rocksdb = "*"
serde = { version = "*", features = ["derive"] }
sha2 = "*"
