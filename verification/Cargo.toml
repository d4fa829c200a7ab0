[package]
name = "gridiron"
version = "0.1.0"
edition = "2021"
publish = false

[dependencies]
crossbeam-channel = "0.5"
rayon = "1"
log = "0.4"
serde = { version = "1", features = ["derive"] }
rmp-serde = "1"
core_affinity = "0.8"
zmq = "0.10"
