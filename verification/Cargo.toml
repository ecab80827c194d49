[package]
name = "bitvm"
version = "0.1.0"
edition = "2021"
publish = false

[dependencies]
num-bigint = { version = "=0.4.8", features = ["rand"] }
num-traits = "=0.2.19"

[dev-dependencies]
rand = "0.8"
rand_chacha = "0.3"
