[package]
name = "joshuto"
version = "0.1.0"
edition = "2021"
publish = false

[dependencies]
open = "*"
ncurses = "*"
mime-detective = "*"
