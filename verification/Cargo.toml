[package]
name = "rouille"
version = "0.1.0"
edition = "2021"
publish = false

[dependencies]
rand = "*"
url = "1"
time = "*"
rustc-serialize = "*"
tiny_http = "*"
