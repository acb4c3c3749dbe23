[package]
name = "tree_shake"
version = "0.1.0"
edition = "2021"
publish = false

[dependencies]
anyhow = "1"
indexmap = "2"
rustc-hash = "1.1"
