[package]
name = "link_variants"
version = "0.1.0"
edition = "2021"
publish = false

[dependencies]
doublets = "*"
itertools = "*"
tap = "*"
