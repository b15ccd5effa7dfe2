[package]
name = "okf"
version = "0.1.0"
edition = "2021"
publish = false

[dependencies]
rand = "=0.7.3"
rand_chacha = "=0.2.2"
ggez = "=0.5.1"
