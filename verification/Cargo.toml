[package]
name = "rsdir"
version = "0.1.0"
edition = "2021"
publish = false

[dependencies]
anyhow = "=1.0.104"
clap = { version = "=4.6.7", features = ["derive"] }
os_str_bytes = { version = "=6.6.1", features = ["conversions"] }
tempfile = "=3.27.0"
