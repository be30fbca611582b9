[package]
name = "git-log-pretty"
version = "0.1.0"
edition = "2021"
publish = false

[dependencies]
chrono = "0.4"
clap = { version = "4", features = ["derive"] }
color-eyre = "0.6"
crossterm = "*"
devicons = "*"
eyre = "0.6"
git2 = { version = "*", default-features = false }
regex = "1"
terminal-light = "*"
