[package]
name = "deme_sim"
version = "0.1.0"
edition = "2021"
publish = false

[dependencies]
linked-list = "=0.0.3"
rand = "=0.3.23"
time = "=0.1.45"
