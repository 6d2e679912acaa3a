[package]
name = "lance_autoresearch"
version = "0.1.0"
edition = "2021"
publish = false

[dependencies]
perf-event = "0.4"
