[package]
name = "dircmp"
version = "0.1.0"
edition = "2021"
publish = false

[dependencies]
bincode = "1"
crypto-hash = "0.3"
structopt = "0.3"
