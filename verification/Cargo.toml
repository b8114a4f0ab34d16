[package]
name = "ese_parser"
version = "0.1.0"
edition = "2021"
publish = false

[dependencies]
cache_2q = "*"
simple-error = "*"
clap = "2.33"
log = "0.4"
env_logger = "0.9"
chrono = "0.4"
strum = { version = "0.24", features = ["derive"] }
prettytable-rs = "*"
hexdump = "*"
itertools = "0.10"
bitflags = "1"

[dev-dependencies]
encoding = "0.2"
