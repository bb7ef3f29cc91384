[package]
name = "tarish"
version = "0.3.0"
edition = "2021"
publish = false

[dependencies]
flate2 = "1"
cpio-archive = "*"
openssl = "0.10"
libc = "0.2"
log = "0.4"
android_logger = "*"
