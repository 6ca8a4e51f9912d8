[package]
name = "svd_blocks"
version = "0.1.0"
edition = "2021"
publish = false

[dependencies]
inflections = "=1.1.1"
quote = "=0.3.15"
svd-parser = "=0.11.0"
syn = "=0.11.11"
