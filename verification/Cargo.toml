[package]
name = "rake"
version = "0.1.0"
edition = "2021"
publish = false

[dependencies]
stop-words = "=0.8.1"
