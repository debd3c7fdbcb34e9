[package]
name = "rtrack"
version = "0.2.0"
edition = "2021"
publish = false

[dependencies]
text-diff = "*"
log = "*"
env_logger = "*"
structopt = "*"
