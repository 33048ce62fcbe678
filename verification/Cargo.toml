[package]
name = "bridge_daemon"
version = "0.1.0"
edition = "2021"
publish = false

[dependencies]
anyhow = "1"
axum = { version = "*", features = ["ws"] }
flacenc = "*"
futures-util = "0.3"
libc = "0.2"
mdns-sd = "*"
opusic-sys = "*"
pipewire = "*"
sendspin = "*"
serde = { version = "1", features = ["derive"] }
serde_json = "1"
tokio = { version = "1", features = ["full"] }
tracing = "0.1"
