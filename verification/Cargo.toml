[package]
name = "paf2chain"
version = "0.1.0"
edition = "2021"
publish = false

[dependencies]
boomphf = "*"
itertools = "*"
clap = "*"
flate2 = "*"
