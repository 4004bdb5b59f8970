[package]
name = "flipsat"
version = "0.1.0"
edition = "2021"
publish = false

[dependencies]
flate2 = "1"
xz2 = "0.1"
rand = { version = "0.8", features = ["small_rng"] }
dimacs = "0.2"
ipasir-sys = "*"
