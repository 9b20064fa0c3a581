[package]
name = "dogwalker"
version = "0.1.0"
edition = "2021"
publish = false

[dependencies]
clap = { version = "=4.6.7", features = ["derive"] }
core_affinity = "=0.8.3"
ctrlc = "=3.5.2"
