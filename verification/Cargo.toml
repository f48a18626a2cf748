[package]
name = "pkg_depgraph"
version = "0.1.0"
edition = "2021"

[dependencies]
serde_json = "1"
