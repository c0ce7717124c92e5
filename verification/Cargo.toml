[package]
name = "sat_puzzles"
version = "0.1.0"
edition = "2021"
publish = false

[dependencies]
varisat = "=0.2.2"
itertools = "=0.14.0"
anyhow = "=1.0.104"
clap = { version = "=4.5.61", features = ["derive"] }
rand = "=0.9.5"
rayon = "=1.11.0"
