[package]
name = "sark"
version = "0.1.0"
edition = "2021"
publish = false

[dependencies]
o3 = "0.9.2"
prost = "0.14.4"
