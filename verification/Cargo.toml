[package]
name = "zewif"
version = "0.1.0"
edition = "2021"
publish = false

[dependencies]
anyhow = "1"
bc-components = "*"
bc-envelope = "*"
dcbor = "*"
hex = "0.4"
sha2 = { version = "0.10", features = ["compress"] }

[dev-dependencies]
rand = "0.8"
