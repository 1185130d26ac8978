[package]
name = "rustbox"
version = "0.1.0"
edition = "2021"
publish = false

[dependencies]
clap = { version = "4", features = ["derive"] }
colored = "*"
comfy-table = "*"
indicatif = "*"
regex = "1"
walkdir = "2"
