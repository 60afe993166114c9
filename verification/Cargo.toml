[package]
name = "pprint"
version = "0.1.0"
edition = "2021"
publish = false

[dependencies]
regex = "1"
dragonbox = "0.1"

[dev-dependencies]
rand = "0.8"
