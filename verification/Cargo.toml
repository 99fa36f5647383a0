[package]
name = "xlsx_reader"
version = "0.1.0"
edition = "2021"
publish = false

[dependencies]
xml-rs = "*"
zip = { version = "*", default-features = false, features = ["deflate"] }
error-chain = { version = "*", default-features = false }
