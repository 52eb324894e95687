[package]
name = "boustrophedon"
version = "0.1.0"
edition = "2021"
publish = false

[dependencies]
petgraph = { version = "0.6", default-features = false }
image = { version = "0.25", default-features = false, features = ["png"] }
