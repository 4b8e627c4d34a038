[package]
name = "storage_map"
version = "0.1.0"
edition = "2021"
publish = false

[dependencies]
bincode = "1.3"
serde = "1.0"
serde_derive = "1.0"
