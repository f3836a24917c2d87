[package]
name = "decision_tree"
version = "0.1.0"
edition = "2021"
publish = false

[dependencies]
bimap = "*"
csv = "*"
rand = "0.8"
rand_chacha = "0.3"
