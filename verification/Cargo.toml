[package]
name = "easyssg"
version = "0.1.0"
edition = "2021"
publish = false

[dependencies]
pulldown-cmark = "*"
clap = { version = "*", features = ["derive"] }
walkdir = "*"
