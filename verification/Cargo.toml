[package]
name = "mazetool"
version = "0.1.0"
edition = "2021"
publish = false

[dependencies]
rand = "0.8"
heapless = "0.7"
log = "0.4"
simple_logger = "1"
crossbeam = "0.8"
clap = "2"
