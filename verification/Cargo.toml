[package]
name = "graph"
version = "0.1.0"
edition = "2021"
publish = false

[dependencies]
permutation = "=0.4.1"
rand = "=0.7.3"
itertools = "=0.15.0"
rayon = "=1.12.0"
num_cpus = "=1.17.0"
