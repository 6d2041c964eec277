[package]
name = "caith"
version = "4.2.4"
edition = "2021"
publish = false

[dependencies]
rand = "0.8"
