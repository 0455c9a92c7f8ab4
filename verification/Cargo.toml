[package]
name = "gdeflate"
version = "0.1.0"
edition = "2021"
publish = false

[dependencies]
byteorder = "1"
gdeflate-sys = "*"
serde = { version = "1", features = ["derive"] }
thiserror = "1"
