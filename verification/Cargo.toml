[package]
name = "stark_fri"
version = "0.1.0"
edition = "2021"
publish = false

[dependencies]
sha2 = "0.10"
bitcoin = "0.32"

[dev-dependencies]
rand = "0.8"
rand_chacha = "0.3"
