[package]
name = "rmc"
version = "0.1.0"
edition = "2021"
publish = false

[dependencies]
rand = "0.8"
rand_core = "0.6"
rand_xoshiro = "0.6"
rand_distr = "0.4"
serde = { version = "1", features = ["derive"] }
serde_json = "1"
thiserror = "1"
rayon = "1"
indicatif = "0.17"
erased-serde = "0.4"
num-complex = "0.4"
