[package]
name = "imgdup"
version = "0.1.0"
edition = "2021"
publish = false

[dependencies]
clap = { version = "4", features = ["derive"] }
dssim-core = "3"
image = "0.24"
imgref = "1"
moka = { version = "0.12", features = ["sync"] }
num_cpus = "1"
rayon = "1"
rgb = "0.8"
walkdir = "2"
