[package]
name = "dpar"
version = "0.1.0"
edition = "2021"
publish = false

[dependencies]
conllx = "*"
enum-map = "*"
failure = "*"
getopts = "*"
ordered-float = { version = "*", features = ["serde"] }
protobuf = "2"
rust2vec = "*"
serde = { version = "1", features = ["derive"] }
serde_cbor = "*"
serde_derive = "1"
stdinout = "*"
tensorflow = "*"
toml = "*"
