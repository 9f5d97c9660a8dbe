[package]
name = "volo_loadbalance"
version = "0.1.0"
edition = "2021"
publish = false

[dependencies]
ahash = "0.8"
rand = "0.8"
parking_lot = "0.12"
thiserror = "1"
volo = "*"
