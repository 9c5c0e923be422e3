[package]
name = "nbody_core"
version = "0.1.0"
edition = "2021"
publish = false

[dependencies]
rayon = "1"
rand = "0.8"
clap = { version = "4", features = ["derive"] }
console = "0.15"
