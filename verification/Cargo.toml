[package]
name = "sequencer"
version = "0.1.0"
edition = "2021"
publish = false

[dependencies]
anyhow = "1"
cpal = "0.13"
rand_xoshiro = "0.6"

[dev-dependencies]
ordered-float = "4"
