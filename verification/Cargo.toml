[package]
name = "scottdb"
version = "0.1.0"
edition = "2021"
publish = false

[dependencies]
crc = "=3.4.0"
lru = { version = "=0.18.5", default-features = false }
std-semaphore = "=0.1.0"

[dev-dependencies]
rand = "=0.10.3"
