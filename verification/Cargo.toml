[package]
name = "wordcount"
version = "0.1.0"
edition = "2021"
publish = false

[dependencies]
rayon = "1"
aes = "0.8"
ctr = "0.9"
hex = "0.4"
rand = "0.8"
rsa = "0.9"
