[package]
name = "maze_tui"
version = "0.1.0"
edition = "2021"
publish = false

[dependencies]
rand = "0.8"
crossterm = "0.27"
ratatui = "0.26"
tui-textarea = "0.4"
crossbeam-channel = "0.5"
ctrlc = "3"
