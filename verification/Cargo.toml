[package]
name = "zoxide"
version = "0.1.0"
edition = "2021"
publish = false

[dependencies]
anyhow = "1"
bincode = "1.3"
caseless = "0.2"
clap = { version = "4", features = ["derive"] }
color-print = "0.3"
glob = "0.3"
same-file = "1"
unicode-normalization = "0.1"

[dev-dependencies]
tempfile = "3"
