[package]
name = "collam"
version = "0.1.0"
edition = "2021"
publish = false

[dependencies]
libc = "0.2"
libc-print = "0.1"
spin = "0.9"
