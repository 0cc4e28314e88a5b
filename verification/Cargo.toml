[package]
name = "emir"
version = "0.1.0"
edition = "2021"
publish = false

[dependencies]
fontdue = "*"
minifb = "*"
image = { version = "*", default-features = false, features = ["png", "jpeg"] }
thiserror = "*"
