[package]
name = "minilog"
version = "0.1.0"
edition = "2021"
publish = false

[dependencies]
anyhow = "*"
chrono = "*"
clap = "*"
fnv = "*"
zstd = "*"
