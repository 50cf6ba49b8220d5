[package]
name = "rash"
version = "0.1.0"
edition = "2021"
publish = false

[dependencies]
nix = "0.26"
rustyline = "12"
log = "0.4"
pretty_env_logger = "0.5"
