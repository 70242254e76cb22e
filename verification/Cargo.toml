[package]
name = "simd_adler32"
version = "0.1.0"
edition = "2021"
publish = false

[dev-dependencies]
adler = "1"
rand = "0.8"
