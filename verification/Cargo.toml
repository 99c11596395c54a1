[package]
name = "networkle"
version = "0.1.0"
edition = "2021"
publish = false

[dependencies]
dialoguer = "=0.12.0"
serde = { version = "=1.0.229", features = ["derive"] }
ureq = { version = "=3.5.1", features = ["json"] }
