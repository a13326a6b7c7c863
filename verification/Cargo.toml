[package]
name = "http_server"
version = "0.1.0"
edition = "2021"
publish = false

[dependencies]
ctrlc = "3"
