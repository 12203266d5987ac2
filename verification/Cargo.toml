[package]
name = "rollup_state"
version = "0.1.0"
edition = "2021"
publish = false

[dependencies]
sov-first-read-last-write-cache = "*"
