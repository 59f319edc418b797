[package]
name = "hft_broker"
version = "0.1.0"
edition = "2021"
publish = false

[dependencies]
core_affinity = "*"
crossbeam-channel = "*"
parking_lot = "*"
