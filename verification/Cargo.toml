[package]
name = "status_hook"
version = "0.1.0"
edition = "2021"
publish = false

[dependencies]
lazy_static = "1"
skyline = "*"
skyline_smash = "*"
