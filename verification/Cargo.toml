[package]
name = "pack2"
version = "0.1.0"
edition = "2021"
publish = false

[dependencies]
faster-hex = "*"
hashbrown = "*"
bstr = "*"
structopt = "*"
