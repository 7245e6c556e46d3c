[package]
name = "hunkpatch"
version = "0.1.0"
edition = "2021"
publish = false

[dependencies]
similar = "2"
colored = "2"
syntect = { version = "5", default-features = false, features = ["default-fancy"] }
tempfile = "3"
walkdir = "2"
