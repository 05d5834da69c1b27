[package]
name = "hotel_ledger"
version = "0.1.0"
edition = "2021"
publish = false

[dependencies]
num = "0.4"
time = { version = "0.3", features = ["parsing", "formatting"] }
jni = "0.21"
