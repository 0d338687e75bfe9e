[package]
name = "xp3"
version = "0.1.0"
edition = "2021"
publish = false

[dependencies]
libflate = "1"
miniserde = "0.1"
clap = "2"
simple_logger = "1"
