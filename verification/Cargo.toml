[package]
name = "frame_codec"
version = "0.1.0"
edition = "2021"
publish = false

[dependencies]
cosmrs = "*"
ed25519-dalek = "*"
subtle-encoding = "*"
tendermint = "*"
