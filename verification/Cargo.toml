[package]
name = "tetris"
version = "0.1.0"
edition = "2021"
publish = false

[dependencies]
rand = "0.8"
log = "0.4"
crossterm = "0.25"
tui = "0.19"
tui-logger = "0.8"
