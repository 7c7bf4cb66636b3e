[package]
name = "sstb"
version = "0.1.0"
edition = "2021"
publish = false

[dependencies]
bloomfilter = "1"
flate2 = "1"
snap = "1"
lru = "0.7"
num_cpus = "1"
bytes = "1"
memmap = "0.7"
nix = "0.26"
parking_lot = "0.12"
