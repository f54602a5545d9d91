[package]
name = "dif_ntt"
version = "0.1.0"
edition = "2021"
publish = false

[dependencies]
p3-field = "*"
p3-goldilocks = "*"
p3-util = "*"
p3-mds = "*"
p3-symmetric = "*"
rand = "*"
