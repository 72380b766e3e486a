[package]
name = "euler"
version = "0.1.0"
edition = "2021"
publish = false

[dependencies]
fixedbitset = "*"
num = "*"
itertools = "*"
ndarray = "*"
