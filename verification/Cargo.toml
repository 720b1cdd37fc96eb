[package]
name = "kubjas"
version = "0.1.0"
edition = "2021"
publish = false

[dependencies]
chrono = "0.4"
clap = { version = "4", features = ["derive"] }
configparser = "3"
crc32fast = "1"
env_logger = "0.11"
libc = "0.2"
log = "0.4"
rand = "0.8"
notify = "6"
