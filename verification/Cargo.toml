[package]
name = "ddup_bak"
version = "0.11.0"
edition = "2021"
publish = false

[dependencies]
blake2 = "=0.11.0"
blake3 = "=1.8.7"
dashmap = "=6.2.1"
fastcdc = "=4.0.1"
flate2 = "=1.1.10"
ignore = "=0.4.34"
libc = "=0.2.191"
parking_lot = "=0.13.0"
rayon = "=1.12.0"
zstd = "=0.14.3"
