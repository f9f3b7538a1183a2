[package]
name = "rorqual"
version = "0.1.0"
edition = "2021"
publish = false

[dependencies]
petgraph = "0.6"
num-traits = "0.2"
rayon = "1"
regex = "1"
chrono = "0.4"
chrono-tz = "0.8"
clap = "2"
git2 = { version = "0.19", default-features = false }
tempfile = "3"
walkdir = "2"
