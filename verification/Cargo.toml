[package]
name = "tripolys"
version = "0.1.0"
edition = "2021"
publish = false

[dependencies]
bimap = "0.6"
bit-vec = "0.6"
clap = "2"
colored = "2"
csv = "1"
indexmap = "1"
itertools = "0.10"
rayon = "1"
serde = "1"
thiserror = "1"
time = "0.3"
