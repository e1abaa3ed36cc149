[package]
name = "fstk"
version = "0.1.0"
edition = "2021"
publish = false

[dependencies]
anyhow = "*"
chrono = "*"
clap = { version = "*", features = ["derive"] }
clap_complete = "*"
dirs = "*"
hex = "*"
libc = "*"
owo-colors = "*"
rusqlite = { version = "*", features = ["bundled"] }
sha2 = "*"
tabled = "*"
walkdir = "*"
