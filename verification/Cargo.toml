[package]
name = "verkle"
version = "0.1.0"
edition = "2021"
publish = false

[dependencies]
ark-bls12-381 = "=0.5.0"
ark-ec = "=0.5.0"
ark-ff = "=0.5.0"
ark-poly = "=0.5.0"
ark-poly-commit = "=0.5.0"
ark-serialize = "=0.5.0"
ark-std = "=0.5.0"
blake3 = "=1.8.7"
rand = "=0.8.8"
