[package]
name = "ic-stable-replog"
version = "0.1.0"
edition = "2021"
publish = false

[dependencies]
ic-stable-structures = "0.7"
