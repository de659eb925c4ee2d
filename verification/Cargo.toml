[package]
name = "mini_lsm"
version = "0.1.0"
edition = "2021"
publish = false

[dependencies]
anyhow = "*"
crc32fast = "*"
crossbeam-skiplist = "*"
flume = "*"
parking_lot = "*"
