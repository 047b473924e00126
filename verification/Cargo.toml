[package]
name = "murmur"
version = "0.1.0"
edition = "2021"
publish = false

[dependencies]
anyhow = "1"
cpal = "0.17"
encoding_rs = "0.8"
handy-keys = "*"
indicatif = "0.18"
llama-cpp-2 = { version = "*", default-features = false }
sherpa-onnx = { version = "1.13", default-features = false }
tokio = { version = "1", features = ["rt-multi-thread", "sync"] }
core-graphics = "0.25"
