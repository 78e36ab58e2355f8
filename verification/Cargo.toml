[package]
name = "nanometers_server"
version = "0.1.0"
edition = "2021"
publish = false

[dependencies]
interprocess = "1"
bytemuck = "*"
nix = { version = "0.27", features = ["socket"] }
anyhow = "*"
