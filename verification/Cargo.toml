[package]
name = "chain_relay"
version = "0.1.0"
edition = "2021"
publish = false

[dependencies]
rand = "0.8"
bitcoin = "0.27"
