[package]
name = "xenops"
version = "0.1.0"
edition = "2021"
publish = false

[dependencies]
uuid = "*"
rust-ini = "*"
libc = "*"
