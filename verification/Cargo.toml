[package]
name = "arrs_bitmap"
version = "0.1.0"
edition = "2021"
publish = false

[dependencies]
arrs-buffer = "*"

[dev-dependencies]
rand = "*"
rand_chacha = "*"
