[package]
name = "copycat"
version = "0.1.0"
edition = "2021"
publish = false

[dependencies]
clipboard = "0.5"
device_query = "1"
x11-clipboard = "0.7"
