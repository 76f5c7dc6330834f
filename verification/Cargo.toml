[package]
name = "oxideav_mesh3d"
version = "0.1.0"
edition = "2021"
publish = false

[dependencies]
oxideav-core = "*"
serde_json = "1"
