[package]
name = "elix"
version = "0.3.0"
edition = "2021"
publish = false

[dependencies]
byteorder = "=1.5.0"
crc32fast = "=1.5.4"
rand = "=0.8.8"
tokio = { version = "=1.54.1", features = ["rt-multi-thread", "net", "io-util", "sync", "time"] }
futures = "=0.3.34"
indicatif = "=0.17.11"
log = "=0.4.35"
env_logger = { version = "=0.9.3", default-features = false }
autodiscover-rs = "=0.1.1"
local-ip-address = "=0.6.13"
walkdir = "=2.5.0"
zip = { version = "=0.5.13", default-features = false }
