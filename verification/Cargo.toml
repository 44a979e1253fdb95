[package]
name = "handel"
version = "0.1.0"
edition = "2021"
publish = false

[dependencies]
nimiq-collections = "2"
nimiq-hash = "2"
hex = "0.4"
rand = "0.8"
rand_chacha = "0.3"
parking_lot = "0.12"
clap = "2"
simple_logger = "4"
stopwatch = "0.0.7"
log = "0.4"
futures = "0.1"
futures-cpupool = "0.1"
