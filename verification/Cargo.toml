[package]
name = "cupcake"
version = "0.2.1"
edition = "2021"
publish = false

[dependencies]
rand = "0.8"
