[package]
name = "othello"
version = "0.1.0"
edition = "2021"
publish = false

[dependencies]
colored = "2"
text_io = "0.1"
