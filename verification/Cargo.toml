[package]
name = "dary"
version = "0.1.0"
edition = "2021"
publish = false

[dependencies]
bincode = "1"
memmap = "0.7"
serde = "1"
