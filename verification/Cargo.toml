[package]
name = "fgt_parser"
version = "0.1.0"
edition = "2021"
publish = false

[dependencies]
anyhow = "1"
serde_json = "1"
serde_yaml = "0.9"
