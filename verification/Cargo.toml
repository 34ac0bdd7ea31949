[package]
name = "mecab_grammar"
version = "0.1.0"
edition = "2021"
publish = false

[dependencies]
fancy-regex = "=0.20.0"
flate2 = "=1.1.10"
csv = "=1.4.0"
napi = "=3.16.1"
napi-derive = "=3.7.0"
serde = { version = "1", features = ["derive"] }
