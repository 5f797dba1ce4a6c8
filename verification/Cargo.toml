[package]
name = "tsinghua_ds"
version = "0.1.0"
edition = "2021"
publish = false
