[package]
name = "traderust"
version = "0.1.0"
edition = "2021"
publish = false

[dependencies]
anyhow = "1"
bisection = "0.1"
bucket_queue = "2"
cairo-rs = "0.15"
clap = { version = "3", features = ["derive"] }
elementtree = "1"
lazy_static = "1"
log = "0.4"
ndarray = "0.15"
rand = "0.8"
rayon = "1"
reqwest = { version = "0.11", features = ["blocking"] }
stderrlog = "0.5"
tempfile = "3"
url = "2"
