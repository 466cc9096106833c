[package]
name = "hyperdl"
version = "0.1.0"
edition = "2021"
publish = false

[dependencies]
horned-owl = "*"
rayon = "1"
