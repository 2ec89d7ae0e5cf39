[package]
name = "bigint_codec"
version = "0.1.0"
edition = "2021"
publish = false

[dependencies]
napi = { version = "2", features = ["napi6"] }
napi-derive = "2"
napi-sys = { version = "2", features = ["napi6"] }
