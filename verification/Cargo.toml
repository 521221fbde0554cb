[package]
name = "parbench"
version = "0.1.0"
edition = "2021"
publish = false

[dependencies]
orx-parallel = { version = "=4.1.1", features = ["experimental"] }
orx-criterion = "=1.0.0"
rand = "=0.10.3"
rand_chacha = "=0.10.0"
rayon = "=1.12.0"
clap = { version = "=4.6.7", features = ["derive"] }
