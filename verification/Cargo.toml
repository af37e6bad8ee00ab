[package]
name = "nadi_core"
version = "0.1.0"
edition = "2021"
publish = false

[dependencies]
colored = "2"
anyhow = "1"
string-template-plus = "*"
termimad = "*"
toml = "*"
chrono = "0.4"
