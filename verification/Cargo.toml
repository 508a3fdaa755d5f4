[package]
name = "telegrep"
version = "0.1.0"
edition = "2021"
publish = false

[dependencies]
regex = "=1.13.1"
lru = { version = "=0.12.5", default-features = false }
clap = { version = "=4.6.7", features = ["derive"] }
crossterm = "=0.28.1"
walkdir = "=2.5.0"
