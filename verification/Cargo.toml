[package]
name = "hatter"
version = "0.1.4"
edition = "2021"
publish = false

[dependencies]
rustyline = "*"
