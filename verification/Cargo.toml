[package]
name = "mos"
version = "0.1.0"
edition = "2021"
publish = false

[dependencies]
colored = "=2.2.0"
dirs = "=4.0.0"
rustyline = "=9.1.2"
