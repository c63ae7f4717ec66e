[package]
name = "ricci"
version = "0.9.0"
edition = "2021"
publish = false

[dependencies]
burn = { version = "0.20", default-features = false }
graphops = "=0.5.3"
lapl = "=0.3.0"
ndarray = "0.16"
wass = "=0.2.5"
