[package]
name = "termsweeper"
version = "0.1.0"
edition = "2021"
publish = false

[dependencies]
rand = "0.8"
ratatui = "0.26"
crossterm = "0.27"
anyhow = "1"
home = "0.5"
