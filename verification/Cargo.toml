[package]
name = "fixedfile_highlighter"
version = "0.1.0"
edition = "2021"
publish = false

[dependencies]
anyhow = "1"
base64 = "0.22"
chrono = "0.4"
clap = { version = "4", features = ["derive"] }
csv = "1"
log = "0.4"
pretty_env_logger = "0.5"
regex = "1"
