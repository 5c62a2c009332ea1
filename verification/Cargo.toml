[package]
name = "kcolor"
version = "0.1.0"
edition = "2021"
publish = false

[dependencies]
gumdrop = "0.8"
once_cell = "1"
rand = "0.8"
