[package]
name = "monte_carlo_tree_search"
version = "0.1.0"
edition = "2021"
publish = false

[dependencies]
ccl = "=5.1.5"
num_cpus = "=1.17.0"
ordered-float = "=5.5.0"
rand = "=0.10.3"
rayon = "=1.12.0"
structopt = "=0.3.26"
strum = "=0.28.0"
strum_macros = "=0.28.0"
