[package]
name = "cgrammar"
version = "0.3.0"
edition = "2021"
publish = false

[dependencies]
chumsky = { version = "0.12", default-features = false, features = ["std"] }
