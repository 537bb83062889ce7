[package]
name = "hash_distribuido"
version = "0.1.0"
edition = "2021"
publish = false

[dependencies]
port_scanner = "0.1"
