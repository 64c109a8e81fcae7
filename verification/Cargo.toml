[package]
name = "dataplane"
version = "0.1.0"
edition = "2021"
publish = false

[dependencies]
content_inspector = "*"
async-channel = "*"
async-lock = "*"
event-listener = "*"
futures-util = { version = "*", features = ["std", "io"] }
