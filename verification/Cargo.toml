[package]
name = "lil"
version = "0.1.0"
edition = "2021"
publish = false

[dependencies]
syntactic_heap = "*"
