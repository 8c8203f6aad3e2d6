[package]
name = "sorting_animations"
version = "0.1.0"
edition = "2021"
publish = false

[dependencies]
rand = "*"
