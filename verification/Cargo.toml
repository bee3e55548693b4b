[package]
name = "smartcut_core"
version = "0.1.0"
edition = "2021"
publish = false

[dependencies]
encoding_rs = "0.8"
anyhow = "1"
ffmpeg-next = "*"
cpal = "*"
