[package]
name = "freivald"
version = "0.1.0"
edition = "2021"
publish = false

[dependencies]
ark-bls12-381 = "0.4"
ark-ff = "0.4"
ndarray = "0.16"
rand = "0.8"
