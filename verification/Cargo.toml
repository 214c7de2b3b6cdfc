[package]
name = "synthesizer"
version = "0.1.0"
edition = "2021"
publish = false

[dependencies]
regex = "=1.13.1"
lru = { version = "=0.18.5", default-features = false }
