[package]
name = "qracer"
version = "0.1.0"
edition = "2021"
publish = false

[dependencies]
image = "*"
imageproc = "*"
qrcodegen = "*"
rxing = "*"
thiserror = "*"
anyhow = "*"
nalgebra = "*"
