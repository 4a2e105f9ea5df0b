[package]
name = "ferrosearch"
version = "0.1.0"
edition = "2021"
publish = false

[dependencies]
indexmap = "2"
napi = { version = "2", features = ["serde-json"] }
napi-derive = "2"
regex = "1"
rustc-hash = "2"
serde = "1"
serde_json = { version = "1", features = ["preserve_order"] }
