[package]
name = "cargo_play"
version = "0.1.0"
edition = "2021"
publish = false

[dependencies]
toml = "0.5"
sha1 = "0.6"
bs58 = "0.3"
pathdiff = "0.2"
syn = { version = "1", features = ["full"] }
proc-macro2 = "1"
quote = "1"
