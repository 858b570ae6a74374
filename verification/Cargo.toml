[package]
name = "rusty_flac"
version = "0.1.4"
edition = "2021"
publish = false

[dependencies]
libm = "0.2"

[dev-dependencies]
claxon = "0.4"
