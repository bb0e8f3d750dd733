[package]
name = "fj_contracting"
version = "0.1.0"
edition = "2021"
publish = false

[dependencies]
rand = "0.9"
nalgebra = "0.33"
itertools = "0.14"
rayon = "1"
clap = { version = "4", features = ["derive"] }
