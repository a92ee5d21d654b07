[package]
name = "crunch_str"
version = "0.1.0"
edition = "2021"
publish = false

[dependencies]
priority-queue = "=2.7.0"

[dev-dependencies]
regex = "1"
