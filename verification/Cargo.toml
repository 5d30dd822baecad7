[package]
name = "midi2mml"
version = "0.1.0"
edition = "2021"
publish = false

[dependencies]
midly = "0.5"
termination = "*"
