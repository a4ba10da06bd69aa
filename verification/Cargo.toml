[package]
name = "elastic_streams"
version = "0.1.0"
edition = "2021"
publish = false

[dependencies]
ark-bls12-381 = "*"
ark-ff = "*"

[dev-dependencies]
ark-std = "*"
