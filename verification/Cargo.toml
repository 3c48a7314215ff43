[package]
name = "tyla"
version = "0.1.0"
edition = "2021"
publish = false

[dependencies]
shlex = "=1.3.0"
anyhow = "1"
log = "0.4"
env_logger = { version = "0.11", default-features = false }
libc = "0.2"
home-dir = "0.1.0"
iced = "=0.14.0"
