[package]
name = "discurse"
version = "0.1.0"
edition = "2021"
publish = false

[dependencies]
uuid = { version = "*", features = ["v4"] }
audiopus = "*"
cpal = "*"
ctrlc = "*"
anyhow = "*"
log = "*"
