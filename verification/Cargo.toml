[package]
name = "uconsyn"
version = "0.1.0"
edition = "2021"
publish = false

[dependencies]
clap = "2"
nom = "3"
unindent = "0.1"
