[package]
name = "speedytree"
version = "0.1.0"
edition = "2021"
publish = false

[dependencies]
rayon = "1"
clap = { version = "4", features = ["derive"] }
dtoa = "1"

[dev-dependencies]
rand = "0.8"
