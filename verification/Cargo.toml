[package]
name = "bundler"
version = "0.1.0"
edition = "2021"
publish = false

[dependencies]
path-absolutize = "*"
rslint_parser = "*"
