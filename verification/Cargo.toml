[package]
name = "zio_uring"
version = "0.1.0"
edition = "2021"
publish = false

[dependencies]
io-uring = "0.6"
jni = "0.19"
libc = "0.2"
