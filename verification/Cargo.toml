[package]
name = "mmn_io"
version = "0.1.0"
edition = "2021"
publish = false

[dependencies]
half = "2"
serde_json = "1"
