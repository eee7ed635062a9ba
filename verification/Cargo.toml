[package]
name = "numeric_utils"
version = "0.1.0"
edition = "2021"
publish = false

[dependencies]
napi = { version = "2", default-features = false, features = ["napi6"] }
napi-derive = "2"
