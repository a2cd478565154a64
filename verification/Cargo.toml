[package]
name = "unified_trash"
version = "0.1.0"
edition = "2021"
publish = false

[dependencies]
anyhow = "1"
chrono = "0.4"
clap = { version = "4", features = ["derive"] }
colored = "2"
libc = "0.2"
log = "0.4"
sha2 = "0.10"
urlencoding = "2"
