[package]
name = "memkv"
version = "0.1.0"
edition = "2021"
publish = false

[dependencies]
fst = "0.4"
parking_lot = "0.12"
