[package]
name = "toge_core"
version = "0.1.1"
edition = "2021"
publish = false

[dependencies]
regex = "=1.13.1"
time = "=0.3.55"
libc = "=0.2.191"
notify = "*"

[dev-dependencies]
