[package]
name = "lp_modeler"
version = "0.1.0"
edition = "2021"
publish = false

[dependencies]
uuid = { version = "=0.8.2", features = ["v4"] }
getrandom = "=0.2.17"
quote = "=1.0.47"
proc-macro2 = "=1.0.107"
coin_cbc = "=0.1.9"
minilp = "=0.2.2"
