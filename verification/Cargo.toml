[package]
name = "usage_tree"
version = "0.1.0"
edition = "2021"
publish = false

[dependencies]
crossbeam = "0.8"
ignore = "0.4"
indextree = "4"
