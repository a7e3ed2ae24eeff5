[package]
name = "yaml_peg"
version = "0.1.0"
edition = "2021"
publish = false

[dependencies]
ritelinked = "*"
serde = { version = "1", features = ["derive"] }
