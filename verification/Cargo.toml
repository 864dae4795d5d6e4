[package]
name = "zk_learning"
version = "0.1.0"
edition = "2021"
publish = false

[dependencies]
ark-ff = "0.5"
ark-poly = "0.5"
ark-bls12-381 = "0.5"
ark-ec = "0.5"
ark-std = "0.5"
rand = "*"
