[package]
name = "hexcell"
version = "0.1.0"
edition = "2021"
publish = false

[dependencies]
h3o = "=0.11.0"
csv = "=1.4.0"
dashmap = "=6.2.1"
indicatif = { version = "=0.18.6", features = ["rayon"] }
rand = "=0.8.8"
rayon = "=1.12.0"
serde = { version = "=1.0.229", features = ["derive"] }
