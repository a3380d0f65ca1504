[package]
name = "cookfs"
version = "0.1.0"
edition = "2021"
publish = false

[dependencies]
flate2 = "=1.1.10"
la-arena = "*"
liblzma = "=0.4.9"
lru = "*"
positioned-io = "*"
