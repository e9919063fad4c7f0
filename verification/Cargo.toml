[package]
name = "mfsk"
version = "0.1.0"
edition = "2021"
publish = false

[dependencies]
heapless = "0.8"
embedded-graphics = "0.8"
log = "0.4"
anyhow = "1"
num-complex = { version = "0.4", default-features = false, features = ["std"] }
num-traits = "0.2"
esp-idf-svc = { version = "*", default-features = false }
