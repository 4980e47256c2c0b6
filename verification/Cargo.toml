[package]
name = "glrnvim"
version = "0.1.0"
edition = "2021"
publish = false

[dependencies]
serde_yaml = "0.8"
tempfile = "3"
