[package]
name = "sph_fluid"
version = "0.1.0"
edition = "2021"

[dependencies]
vecmath = "1"
rand = "0.8"
