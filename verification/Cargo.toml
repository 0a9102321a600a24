[package]
name = "claybrick"
version = "0.1.0"
edition = "2021"
publish = false

[dependencies]
flate2 = "1"
fnv = "1"
hex = "0.4"

[dev-dependencies]
nom = "7"
