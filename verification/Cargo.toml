[package]
name = "dict_encode"
version = "0.1.0"
edition = "2021"
publish = false

[dependencies]
hashbrown = "*"
parking_lot = "*"
