[package]
name = "remda"
version = "0.1.0"
edition = "2021"
publish = false

[dependencies]
env_logger = "0.8"
image = { version = "0.24", default-features = false, features = ["png", "jpeg"] }
log = "0.4"
num_cpus = "1"
once_cell = "1"
rand = "0.8"
rayon = "1"
