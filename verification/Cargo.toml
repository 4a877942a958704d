[package]
name = "hyperanf"
version = "0.1.0"
edition = "2021"
publish = false

[dependencies]
csv = "*"
num-bigint = "*"
rayon = "*"
