[package]
name = "kzg"
version = "0.1.0"
edition = "2021"
publish = false

[dependencies]
ark-bls12-381 = "*"
ark-ec = "*"
ark-ff = "*"
ark-poly = "*"
ark-serialize = "*"
ark-std = "*"
ndarray = "*"
rand = "0.8"
