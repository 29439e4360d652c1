[package]
name = "rust_ising"
version = "0.1.0"
edition = "2021"
publish = false

[dependencies]
anyhow = "1"
bitvec = "1"
clap = { version = "4", features = ["derive"] }
rand = "*"
rand_distr = "*"
rand_pcg = "*"
