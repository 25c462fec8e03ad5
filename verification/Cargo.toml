[package]
name = "mini_quiche"
version = "0.1.0"
edition = "2021"
publish = false
