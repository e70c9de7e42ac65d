[package]
name = "rcore"
version = "0.1.0"
edition = "2021"
publish = false

[dependencies]
bitflags = "1.2"
spin = "0.7"
