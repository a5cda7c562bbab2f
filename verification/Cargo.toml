[package]
name = "ftwdb"
version = "0.1.0"
edition = "2021"
publish = false

[dependencies]
crc32fast = "1"
flate2 = "1"
jiff = "0.2"
libc = "0.2"
lz4_flex = "0.11"
postcard = { version = "1", features = ["use-std"] }
rustix = { version = "1", features = ["fs", "net", "process"] }
serde = { version = "1", features = ["derive"] }
serde_json = "1"

[dev-dependencies]
tempfile = "3"
