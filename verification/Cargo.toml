[package]
name = "pack_rs"
version = "0.1.0"
edition = "2021"
publish = false

[dependencies]
rusqlite = { version = "*", features = ["bundled", "blob", "backup"] }
zstd = "*"
clap = "*"
os_str_bytes = "*"
