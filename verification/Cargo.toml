[package]
name = "tachibana"
version = "0.1.0"
edition = "2021"
publish = false

[dependencies]
goblin = "=0.10.7"
log = "=0.4.35"
uefi = { version = "=0.41.0", features = ["alloc", "logger"] }
