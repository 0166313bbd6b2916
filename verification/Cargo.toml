[package]
name = "greed"
version = "0.1.0"
edition = "2021"

[dependencies]
num-bigint = "*"
num-traits = "*"
