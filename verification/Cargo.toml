[package]
name = "eerie"
version = "0.1.0"
edition = "2021"
publish = false

[dependencies]
subprocess = "0.2"
