[package]
name = "quorum_diff"
version = "0.1.0"
edition = "2021"
publish = false

[dependencies]
hashlink = "*"
log = "*"
yaml-rust2 = "*"
