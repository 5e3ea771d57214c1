[package]
name = "terralistic"
version = "0.1.0"
edition = "2021"
publish = false

[dependencies]
snap = "1"
serde = "1"
serde_derive = "1"
bincode = "1"
