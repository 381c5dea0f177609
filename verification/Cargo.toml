[package]
name = "rdf_workload"
version = "0.1.0"
edition = "2021"
publish = false

[dependencies]
ahash = { version = "0.8", default-features = false }
clap = { version = "3.2", features = ["derive"] }
rand = { version = "0.8", features = ["small_rng"] }
rayon = "1"
rio_api = "0.8"
rio_turtle = "0.8"
walkdir = "2"
