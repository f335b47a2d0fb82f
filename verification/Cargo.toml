[package]
name = "redisgears"
version = "0.1.0"
edition = "2021"
publish = false

[dependencies]
threadpool = "*"
libloading = "*"
