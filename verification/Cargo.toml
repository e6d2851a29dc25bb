[package]
name = "concurrent_hash_map"
version = "0.1.0"
edition = "2021"
publish = false

[dependencies]
crossbeam-epoch = "0.9"
parking_lot = "0.12"
