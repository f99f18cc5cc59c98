[package]
name = "advent2023"
version = "0.1.0"
edition = "2021"
publish = false

[dependencies]
itertools = "0.12"
tracing = "0.1"
