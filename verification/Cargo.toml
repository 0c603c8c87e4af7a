[package]
name = "monument"
version = "0.1.0"
edition = "2021"
publish = false

[dependencies]
bellframe = { version = "=0.5.2", default-features = false }
itertools = "=0.10.5"
log = "=0.4.35"
num_cpus = "=1.17.0"
