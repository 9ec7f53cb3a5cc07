[package]
name = "psi_ask"
version = "0.1.0"
edition = "2021"
publish = false

[dependencies]
async-channel = "2"
clap = { version = "4", features = ["derive"] }
flate2 = "1"
gtk4 = { version = "*", features = ["v4_12"] }
gtk4-layer-shell = "*"
libc = "0.2"
regex = "1"
