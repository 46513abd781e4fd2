[package]
name = "bfv"
version = "0.1.0"
edition = "2021"
publish = false

[dependencies]
ndarray = "0.15"
num-bigint = "=0.4.8"
num-bigint-dig = { version = "=0.8.6", features = ["prime"] }
num-traits = "=0.2.19"
rand = "=0.8.8"
rand_chacha = "=0.3.1"
zeroize = "=1.9.1"
