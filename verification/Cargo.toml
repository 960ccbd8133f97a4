[package]
name = "glyphspack"
version = "2.0.0"
edition = "2021"
publish = false

[dependencies]
anyhow = "=1.0.104"
clap = "=4.6.7"
rayon = "=1.12.0"
regex = "1"
