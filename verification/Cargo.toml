[package]
name = "duplicate_finder"
version = "0.1.0"
edition = "2021"
publish = false

[dependencies]
multimap = "*"
ignore = "*"
num_cpus = "*"
rayon = "*"
structopt = "*"
