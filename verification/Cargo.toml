[package]
name = "fuba"
version = "0.1.0"
edition = "2021"
publish = false

[dependencies]
rand = "0.5"
petgraph = "0.4"
toml = "0.4"
serde = "1"
serde_derive = "1"
clap = "2"
num_cpus = "1"
