[package]
name = "mochios_files"
version = "0.1.0"
edition = "2021"
publish = false

[dependencies]
viewkit = "=1.0.3"
