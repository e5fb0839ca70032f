[package]
name = "utility_belt"
version = "0.1.0"
edition = "2021"
publish = false

[dependencies]
async-std = "1"
once_cell = "1"
