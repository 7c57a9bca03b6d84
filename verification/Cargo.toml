[package]
name = "fdedup"
version = "0.1.0"
edition = "2021"
publish = false

[dependencies]
globset = "*"
crypto-hash = "*"
clap = "*"
env_logger = "*"
log = "*"
indicatif = "*"
humanize-rs = "*"

[dev-dependencies]
tempfile = "*"
fastrand = "*"
