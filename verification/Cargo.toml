[package]
name = "rsckks"
version = "0.1.0"
edition = "2021"
publish = false

[dependencies]
rand = "*"
rand_distr = "*"
num-complex = "0.4"
thiserror = "2"
