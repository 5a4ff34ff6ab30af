[package]
name = "kvs"
version = "0.1.0"
edition = "2021"
publish = false

[dependencies]
sled = "*"
clap = "*"
log = "*"
env_logger = "*"
rayon = "*"
