[package]
name = "dict_search"
version = "0.1.0"
edition = "2021"
publish = false

[dependencies]
anyhow = "1"
crossterm = "0.28"
once_cell = "1"
ratatui = "0.29"
regex = "1"
url = "2"
