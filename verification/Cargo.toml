[package]
name = "reliquary"
version = "0.1.0"
edition = "2021"
publish = false

[dependencies]
anyhow = "1"
clap = { version = "4", features = ["derive"] }
keyring = { version = "3", features = ["apple-native", "async-secret-service", "async-io", "crypto-rust"] }
libc = "0.2"
rpassword = "7"
shlex = "1"
zeroize = "1"
