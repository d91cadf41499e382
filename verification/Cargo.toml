[package]
name = "suffix_array"
version = "0.5.0"
edition = "2021"
publish = false

[dependencies]
bincode = "1"
bitpacking = "0.8"
cdivsufsort = "*"
serde = { version = "1", features = ["derive"] }

[dev-dependencies]
rand = "0.7"
