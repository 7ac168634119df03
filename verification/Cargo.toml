[package]
name = "lfr_parser"
version = "0.1.0"
edition = "2021"
publish = false

[dependencies]
indoc = "1"
xshell = "0.1"
