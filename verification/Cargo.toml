[package]
name = "ipaggregator"
version = "0.1.0"
edition = "2021"
publish = false

[dependencies]
argparse = "*"
log = "*"
log4rs = "*"
serde = { version = "*", features = ["derive"] }
serde_yaml = "*"
