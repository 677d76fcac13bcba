[package]
name = "biglittle"
version = "0.1.0"
edition = "2021"
publish = false

[dependencies]
indexmap = "*"
anyhow = "*"
clap = { version = "*", features = ["derive"] }
csv = "*"
