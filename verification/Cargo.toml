[package]
name = "code_bundler"
version = "0.1.0"
edition = "2021"
publish = false

[dependencies]
ignore = "*"
rustyline = "*"
