[package]
name = "splitscreen"
version = "0.1.0"
edition = "2021"
publish = false

[dependencies]
clap = "3.2"
font-loader = "0.11"
image = "0.23"
imageproc = "0.22"
rusttype = "0.9"
