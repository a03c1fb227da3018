[package]
name = "chunk_tally"
version = "0.1.0"
edition = "2021"
publish = false

[dependencies]
async-std = "1"
crossbeam = "0.8"
num_cpus = "1"
