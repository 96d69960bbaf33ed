[package]
name = "file_mapper"
version = "0.1.0"
edition = "2021"
publish = false

[dependencies]
getopts = "*"
log = "*"
env_logger = "*"
yaml-rust = "*"
flate2 = "*"
bzip2 = "*"
