[package]
name = "batpak"
version = "0.1.0"
edition = "2021"
publish = false

[dependencies]
chacha20poly1305 = { version = "0.10", features = ["std"] }
crc32fast = "1.4"
dashmap = "6"
flume = "0.11"
getrandom = "0.3"
libc = "0.2"
memmap2 = "0.9"
parking_lot = "0.12"
serde = { version = "1", features = ["derive"] }
serde_json = "1"
tempfile = "3"
tracing = "0.1"
zeroize = "1"
