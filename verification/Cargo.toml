[package]
name = "octobuild"
version = "0.1.0"
edition = "2021"
publish = false

[dependencies]
byteorder = "=1.5.0"
clap = "=2.34.0"
local-encoding = "=0.2.0"
nom = "=2.2.1"
regex = "=1.13.1"
rust-crypto = "0.2"
