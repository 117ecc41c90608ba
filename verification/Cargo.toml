[package]
name = "optiwork"
version = "0.1.0"
edition = "2021"
publish = false

[dependencies]
libc = "0.2"
memchr = "=2.8.3"
regex = "=1.13.1"
serde = { version = "1", features = ["derive"] }
serde_json = "1"
sha2 = "0.10"
