[package]
name = "f14vectormap"
version = "0.1.0"
edition = "2021"
publish = false
