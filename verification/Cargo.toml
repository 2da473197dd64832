[package]
name = "hislab"
version = "0.2.0"
edition = "2021"
publish = false

[dependencies]
libc = "0.2"
memfd = "0.6"
memmap2 = "0.9"
monoio = { version = "0.2", default-features = false, features = ["iouring", "legacy", "bytes"] }
rand = "0.8"
