[package]
name = "kahva"
version = "0.1.0"
edition = "2021"
publish = false

[dependencies]
chrono = "=0.4.45"
clap = { version = "=4.6.7", features = ["derive"] }
color-eyre = "=0.6.5"
egui = "=0.31.1"
futures-executor = "=0.3.34"
sapling-renderdag = "*"
