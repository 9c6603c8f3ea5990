[package]
name = "poker_hands"
version = "0.1.0"
edition = "2021"
publish = false

[dependencies]
itertools = "*"
