[package]
name = "udon"
version = "0.1.0"
edition = "2021"
publish = false

[dependencies]
alsa = "*"
libsoundio-sys = "*"
serde = { version = "1", features = ["derive"] }
