[package]
name = "winners_extractor"
version = "0.1.0"
edition = "2021"
publish = false

[dependencies]
multiversx-sc = "=0.66.2"
multiversx-sc-modules = "=0.66.2"
