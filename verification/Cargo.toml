[package]
name = "tinygif"
version = "0.1.0"
edition = "2021"
publish = false

[dependencies]
defmt = "0.3"
embedded-graphics = "0.8"
heapless = "0.8"
