[package]
name = "galette"
version = "0.1.0"
edition = "2021"
publish = false

[dependencies]
quine-mc_cluskey = "=0.2.4"
anyhow = "=1.0.104"
