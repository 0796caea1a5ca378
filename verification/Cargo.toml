[package]
name = "koto"
version = "1.1.0"
edition = "2021"
publish = false

[dependencies]
clap = "=2.34.0"
fuse = "=0.3.1"
libc = "=0.2.191"
signal-hook = "=0.1.17"
time = "=0.1.45"
users = "=0.11.0"
