[package]
name = "cranefuck"
version = "0.1.0"
edition = "2021"
publish = false

[dependencies]
clap = "2"
codespan-reporting = "0.11"
