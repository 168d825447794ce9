[package]
name = "inoxset"
version = "0.1.0"
edition = "2021"
publish = false

[dependencies]
arc-swap = "1"
heed = "0.20"
log = "0.4"
memmap2 = "0.9"
roaring = "0.10"
rustc-hash = "2"
thiserror = "1"
uuid = { version = "1", features = ["v4", "v7"] }
