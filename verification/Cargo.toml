[package]
name = "zed_typescript"
version = "0.1.0"
edition = "2021"
publish = false

[dependencies]
zed_extension_api = "=0.7.0"
