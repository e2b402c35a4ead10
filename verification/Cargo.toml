[package]
name = "audio-stack-rs"
version = "0.1.0"
edition = "2021"
publish = false

[dependencies]
base64 = "=0.22.1"
crossbeam-channel = "=0.5.17"
lofty = "=0.22.4"
log = "=0.4.35"
realfft = "=3.5.1"
rubato = "0.16"
serde = { version = "=1.0.229", features = ["derive"] }
timestretch = "=0.14.0"
tokio = { version = "=1.54.1", features = ["rt-multi-thread", "time"] }
