[package]
name = "cjk_freq"
version = "0.1.0"
edition = "2021"
publish = false

[dependencies]
jieba-rs = "*"
anyhow = "*"
pico-args = "*"
