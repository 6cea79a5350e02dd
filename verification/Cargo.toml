[package]
name = "kernel"
version = "0.1.0"
edition = "2021"
publish = false

[dependencies]
x86 = "0.52"
limine = "0.6"
lock_api = "0.4"
