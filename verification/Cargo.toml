[package]
name = "seek_stream"
version = "0.1.0"
edition = "2021"
publish = false

[dependencies]
futures = "0.3"
rand = "0.8"
range_header = "*"
rocket = "0.5"
tree_magic = "0.2"
