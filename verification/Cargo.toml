[package]
name = "qshard"
version = "0.1.0"
edition = "2021"
publish = false

[dependencies]
aes-gcm = "0.10"
anyhow = "1"
base64 = "0.22"
clap = { version = "4", features = ["derive"] }
hex = "0.4"
indicatif = "0.17"
rand = "0.8"
rpassword = "7"
thiserror = "1"
zeroize = "1"
