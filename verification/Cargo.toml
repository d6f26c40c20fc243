[package]
name = "plannotator"
version = "0.1.0"
edition = "2021"
publish = false

[dependencies]
ruzstd = "=0.9.1"
serde_json = "=1.0.154"
