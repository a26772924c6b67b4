[package]
name = "sym_parser"
version = "0.1.0"
edition = "2021"
publish = false

[dependencies]
serde_json = "1"
serde_yaml = "0.9"
toml = "0.8"
thiserror = "1"
