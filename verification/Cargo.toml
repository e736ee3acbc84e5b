[package]
name = "circuit"
version = "0.1.0"
edition = "2021"
publish = false

[dependencies]
fixedbitset = "0.5"
clap = { version = "4", features = ["derive"] }
