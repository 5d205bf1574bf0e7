[package]
name = "ledger_codec"
version = "0.1.0"
edition = "2021"
publish = false

[dependencies]
byteorder = "1"
ring = "0.17"
time = "0.1"
