[package]
name = "sigmar"
version = "0.1.0"
edition = "2021"
publish = false

[dependencies]
itertools = "0.7"
rand = "0.4"
lazy_static = "1"
num = "*"
image = { version = "*", default-features = false, features = ["png"] }
scrap = "*"
dxgcap = "*"
