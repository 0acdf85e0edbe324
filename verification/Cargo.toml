[package]
name = "bfk_interpreter"
version = "0.1.0"
edition = "2021"

[dependencies]
colored = "2"
