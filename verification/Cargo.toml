[package]
name = "rafka"
version = "0.1.0"
edition = "2021"
publish = false

[dependencies]
tokio = { version = "1", features = ["full"] }
napi = { version = "2", default-features = false, features = ["napi4", "async"] }
napi-derive = "2"
