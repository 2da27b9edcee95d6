[package]
name = "lynxctl"
version = "0.1.0"
edition = "2021"

[dependencies]
clap = "*"
console = "*"
ctrlc = "*"
