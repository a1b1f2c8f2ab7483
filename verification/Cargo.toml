[package]
name = "workspace"
version = "0.3.0"
edition = "2021"
publish = false

[dependencies]
clap = "*"
colored = "*"
dirs = "*"
term_grid = "*"
