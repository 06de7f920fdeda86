[package]
name = "chain_index"
version = "0.1.0"
edition = "2021"
publish = false

[dependencies]
base64 = "*"
bitcoin = "*"
clap = "2.34"
dirs = "*"
hex = "*"
lru = "*"
num_cpus = "*"
rust-crypto = "*"
serde_json = "*"
stderrlog = "*"
