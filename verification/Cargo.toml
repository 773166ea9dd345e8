[package]
name = "sgf_render"
version = "0.1.0"
edition = "2021"
publish = false

[dependencies]
sgf-parse = "*"
minidom = "*"
clap = { version = "*", features = ["derive"] }
