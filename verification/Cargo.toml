[package]
name = "capella"
version = "0.1.0"
edition = "2021"
publish = false

[dependencies]
chrono = "*"
dotenv = "*"
env_logger = "*"
log = "*"
