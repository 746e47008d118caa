[package]
name = "virtual_ascii"
version = "0.1.0"
edition = "2021"
publish = false

[dependencies]
anyhow = "*"
clap = { version = "*", features = ["derive"] }
crossbeam-channel = "*"
ctrlc = "*"
fontdue = "*"
libc = "*"
nix = { version = "*", features = ["ioctl"] }
nokhwa = { version = "*", features = ["input-v4l"] }
