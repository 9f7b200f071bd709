[package]
name = "hcp_rs"
version = "0.1.0"
edition = "2021"
publish = false

[dependencies]
gml_parser = "=0.1.1"
mt19937 = "=2.0.1"
rand = "=0.8.8"
