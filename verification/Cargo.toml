[package]
name = "bale"
version = "0.1.0"
edition = "2021"
publish = false

[dependencies]
crc32c = "0.6"
chrono = { version = "0.4", default-features = false, features = ["clock", "std"] }
safename = "*"
clap = { version = "4", features = ["derive"] }
thiserror = "2"
log = "0.4"
env_logger = "*"
tempfile = "3"
nix = { version = "*", features = ["fs", "user", "process"] }
dialoguer = "*"
fuser = { version = "*", default-features = false }
