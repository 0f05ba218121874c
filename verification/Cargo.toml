[package]
name = "sender_receiver"
version = "0.1.0"
edition = "2021"
publish = false

[dependencies]
csv = "1"
libc = "0.2"
pnet = "0.35"
rand = "0.8"
toml = "0.8"
