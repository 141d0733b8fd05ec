[package]
name = "numcount"
version = "0.1.0"
edition = "2021"
publish = false

[dependencies]
fxhash = "0.2"
memmap = "0.7"
path_abs = "0.5"
sha2 = "0.9"
structopt = "0.3"
