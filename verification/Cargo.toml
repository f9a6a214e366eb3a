[package]
name = "annapura"
version = "0.1.0"
edition = "2021"
publish = false

[dependencies]
anyhow = "1"
half = "2"
memmap2 = "0.9"
