[package]
name = "gopher_crawler"
version = "0.1.0"
edition = "2021"
publish = false

[dependencies]
path-clean = "*"
chrono = "*"
clap = { version = "*", features = ["derive"] }
lazy_static = "*"
