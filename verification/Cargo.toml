[package]
name = "bindery"
version = "0.1.0"
edition = "2021"
publish = false

[dependencies]
tokei = "*"
ignore = "*"
clap = { version = "*", features = ["derive"] }
