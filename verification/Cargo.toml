[package]
name = "tcp_switch"
version = "0.1.0"
edition = "2021"
publish = false

[dependencies]
log = "*"
managed = "*"
spin = "*"
