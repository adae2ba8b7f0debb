[package]
name = "tinymqtt"
version = "0.1.0"
edition = "2021"

[dependencies]
num-derive = "0.4"
num-traits = { version = "0.2", default-features = false }
