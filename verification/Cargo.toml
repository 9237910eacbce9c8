[package]
name = "pumpkin_logic"
version = "0.1.0"
edition = "2021"
publish = false

[dependencies]
ruzstd = "=0.8.3"
rand = "=0.10.3"
syn = { version = "=2.0.119", features = ["full"] }
wit-encoder = "=0.263.0"
bytes = "=1.12.1"
uuid = "=1.29.0"
