[package]
name = "cell_pairs"
version = "0.1.0"
edition = "2021"
publish = false

[dependencies]
dashmap = { version = "=6.2.1", features = ["rayon"] }
rayon = "=1.12.0"
