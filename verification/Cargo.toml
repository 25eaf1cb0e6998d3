[package]
name = "pow_miner"
version = "0.1.0"
edition = "2021"
publish = false

[dependencies]
revm = "*"
rayon = "*"
rand = "*"
dotenv = "*"
tracing = "*"
tracing-subscriber = "*"
