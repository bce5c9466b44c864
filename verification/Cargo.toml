[package]
name = "kiku"
version = "0.1.0"
edition = "2021"
publish = false

[dependencies]
regex = "1"
unicode-normalization = "0.1"
unicode-properties = "0.1"
serde = { version = "1", features = ["derive"] }
serde_json = "1"
anyhow = "1"
hound = "3"
rustfft = "6"
candle-core = "*"
candle-nn = "*"
