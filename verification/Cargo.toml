[package]
name = "wpm_meter"
version = "0.1.0"
edition = "2021"
publish = false

[dependencies]
rdev = "*"
tao = "*"
tray-icon = "*"
