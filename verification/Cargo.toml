[package]
name = "cahill"
version = "0.1.0"
edition = "2021"
publish = false

[dependencies]
base64 = "0.22"
symphonia = "0.5"
cpal = "*"
rubato = "*"
rodio = "*"
dioxus = "*"
tokio = { version = "1", features = ["time"] }
rfd = "*"
gloo-timers = { version = "*", features = ["futures"] }
