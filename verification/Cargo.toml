[package]
name = "listprojects"
version = "0.1.0"
edition = "2021"
publish = false

[dependencies]
clap = { version = "*", features = ["derive"] }
color-eyre = { version = "*", default-features = false }
dirs = "*"
ignore = "*"
skim = "*"
