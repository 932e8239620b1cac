[package]
name = "os_str_bytes"
version = "0.1.0"
edition = "2021"

[dependencies]
memchr = "2"

[dev-dependencies]
fastrand = "2"
