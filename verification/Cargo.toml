[package]
name = "fec_simulator"
version = "0.1.0"
edition = "2021"
publish = false

[dependencies]
bitmaps = "=3.2.1"
rand = { version = "=0.8.8", features = ["small_rng"] }
clap = { version = "=4.6.7", features = ["derive"] }
csv = "=1.4.0"
env_logger = "=0.11.11"
log = "=0.4.34"
