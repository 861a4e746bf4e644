[package]
name = "flowrs"
version = "0.1.0"
edition = "2021"
publish = false

[dependencies]
varisat = "0.2"
colored = "2"
crossterm = "0.28"
ratatui = "0.29"
