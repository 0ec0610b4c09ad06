[package]
name = "fp_frame"
version = "0.1.0"
edition = "2021"
publish = false

[dependencies]
bumpalo = { version = "=3.20.3", features = ["collections"] }
fp-columnar = "=0.1.2"
fp-index = "=0.1.2"
fp-runtime = "=0.1.2"
fp-types = "=0.1.2"
serde = { version = "1", features = ["derive"] }
thiserror = "2"
