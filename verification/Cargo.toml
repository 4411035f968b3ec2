[package]
name = "png-spark"
version = "0.2.0"
edition = "2021"
publish = false

[dependencies]
png = "0.18"
fdeflate = "0.3"
