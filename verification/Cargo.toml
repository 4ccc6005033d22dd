[package]
name = "merkle_accel"
version = "0.1.0"
edition = "2021"
publish = false

[dependencies]
plonky2 = "*"
metal = "*"
lazy_static = "*"
serde = { version = "*", features = ["derive"] }
