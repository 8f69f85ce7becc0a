[package]
name = "musicscan"
version = "0.1.0"
edition = "2021"
publish = false

[dependencies]
clap = { version = "4", features = ["derive"] }
headless_chrome = "1"
rayon = "1"
