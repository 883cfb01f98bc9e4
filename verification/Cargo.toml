[package]
name = "rc5_cypher"
version = "0.1.0"
edition = "2021"
publish = false

[dependencies]
byterepr = "*"
itertools = "0.12"
num-traits = "0.2"
secrecy = "0.8"
anyhow = "1"
clap = { version = "4", features = ["derive"] }
hex = "0.4"
