[package]
name = "cds"
version = "0.1.0"
edition = "2021"
publish = false

[dependencies]
crossbeam-epoch = "=0.9.21"
crossbeam-utils = "=0.8.23"
parking_lot = "=0.12.5"
rand = "=0.8.8"
thread_local = "1"
