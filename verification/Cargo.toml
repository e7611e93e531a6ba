[package]
name = "pretty_decimal"
version = "0.1.0"
edition = "2021"
publish = false

[dependencies]
rust_decimal = "1"
itoa = "1"
arrayvec = "0.7"
thiserror = "1"
