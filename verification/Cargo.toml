[package]
name = "throttle-net"
version = "0.8.0"
edition = "2021"
publish = false

[dependencies]
ahash = "0.8"
better-bucket = "*"
clock-lib = "*"
error-forge = "*"
event-listener = "5"
futures-lite = "2"
metrics = "0.24"
tokio = { version = "1", features = ["time", "rt", "sync", "macros"] }
tracing = "0.1"
