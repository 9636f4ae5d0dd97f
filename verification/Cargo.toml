[package]
name = "bencode_json"
version = "0.1.0"
edition = "2021"
publish = false

[dependencies]
hex = "0.4"
is-terminal = "0.4"
json5 = "0.4"
serde_json = "1"
