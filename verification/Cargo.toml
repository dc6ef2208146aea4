[package]
name = "fractui"
version = "0.1.0"
edition = "2021"
publish = false

[dependencies]
rayon = "1"
ratatui = "0.29"
crossterm = "0.28"
