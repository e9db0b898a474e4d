[package]
name = "bae_utils"
version = "0.1.0"
edition = "2021"
publish = false

[dependencies]
wav = "=0.4.1"
