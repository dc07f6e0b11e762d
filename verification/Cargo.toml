[package]
name = "scenario"
version = "0.1.0"
edition = "2021"
publish = false

[dependencies]
rand = "=0.7.3"
rand_xorshift = "=0.2.0"
serde = "1"
serde_derive = "1"
serde_json = "1"
