[package]
name = "zd_challenges"
version = "0.1.0"
edition = "2021"
publish = false

[dependencies]
sha1 = "=0.10.7"
parity-scale-codec = { version = "=3.7.5", features = ["derive"] }
serde = { version = "=1.0.229", features = ["derive"] }
sp-runtime = "=49.0.0"
sp-std = "=14.0.0"
frame-support = "=49.0.0"
frame-system = "=49.0.0"
