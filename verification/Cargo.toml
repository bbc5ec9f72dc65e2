[package]
name = "haruhi_crypt"
version = "0.2.0"
edition = "2021"
publish = false

[dependencies]
sha2 = "=0.10.9"
hmac = "=0.12.1"
rand = "=0.8.8"
chrono = "=0.4.45"
