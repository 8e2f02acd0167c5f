[package]
name = "swift_topomap"
version = "0.1.0"
edition = "2021"
publish = false

[dependencies]
anyhow = "1"
clap = { version = "4", features = ["derive"] }
crossterm = "0.28"
ratatui = "0.29"
hostname = "0.4"
libc = "0.2"
libbpf-rs = "0.24"
