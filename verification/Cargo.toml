[package]
name = "phonewords"
version = "0.1.0"
edition = "2021"
publish = false

[dependencies]
aho-corasick = "0.6"

[dev-dependencies]
itertools = "*"
