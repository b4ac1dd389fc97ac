[package]
name = "classic_mceliece_rust"
version = "0.1.0"
edition = "2021"
publish = false

[dependencies]
sha3 = { version = "0.10", default-features = false }
rand = { version = "0.8", default-features = false }

[dev-dependencies]
aes = "0.8"
