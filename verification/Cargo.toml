[package]
name = "rodal"
version = "0.1.0"
edition = "2021"
publish = false

[dependencies]
num = "*"
libc = "*"
field-offset = "*"
