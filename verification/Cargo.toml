[package]
name = "mjpeg_relay"
version = "0.1.0"
edition = "2021"
publish = false

[dependencies]
anyhow = "*"
async-net = "*"
async-process = "*"
bytes = "*"
clap = { version = "*", features = ["derive"] }
futures = "*"
smol = "*"
thiserror = "*"
tide = "*"
tide-tracing = "*"
tracing = "*"
tracing-subscriber = "*"
