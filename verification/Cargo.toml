[package]
name = "compare_it"
version = "0.1.0"
edition = "2021"
publish = false

[dependencies]
blake3 = "*"
similar = "*"
clap = { version = "*", features = ["derive"] }
walkdir = "*"
rayon = "*"
