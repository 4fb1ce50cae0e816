[package]
name = "tree_cli"
version = "0.1.0"
edition = "2021"
publish = false

[dependencies]
globset = "*"
term = "*"
clap = { version = "*", features = ["derive"] }
