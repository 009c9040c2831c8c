[package]
name = "veles"
version = "0.1.0"
edition = "2021"
publish = false

[dependencies]
crc32fast = "*"
ring = "*"
hex = "*"
flate2 = "*"
serde = { version = "1", features = ["derive"] }
bincode = "1"
toml = "*"
clap = { version = "4", features = ["derive"] }
rusqlite = { version = "*", features = ["bundled"] }
termcolor = "*"
