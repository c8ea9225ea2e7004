[package]
name = "rip"
version = "0.1.0"
edition = "2021"
publish = false

[dependencies]
byteorder = "1"
nom = "4"
failure = "0.1"
futures = "0.1"
tokio = "0.1"
serde = "1"
serde_derive = "1"
toml = "0.5"
