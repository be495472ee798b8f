[package]
name = "krkr_tools"
version = "0.1.0"
edition = "2021"
publish = false

[dependencies]
adler = "=1.0.2"
flate2 = "=1.1.10"
clap = { version = "=4.6.7", features = ["derive"] }
walkdir = "=2.5.0"
binrw = "*"
