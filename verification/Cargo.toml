[package]
name = "kirialsd"
version = "0.1.0"
edition = "2021"
publish = false

[dependencies]
async-channel = "2"
async-io = "2"
futures-util = "0.3"
serde = { version = "1", features = ["derive"] }
signal-hook = "0.3"
toml = "0.8"
zbus = "5"
