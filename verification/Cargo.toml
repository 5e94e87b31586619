[package]
name = "bitbang"
version = "0.1.0"
edition = "2021"
publish = false

[dependencies]
embedded-hal = "*"
nb = "*"
