[package]
name = "eyd"
version = "0.1.0"
edition = "2021"
publish = false

[dependencies]
mountpoints = "*"
serde_json = "1"
