[package]
name = "jazz"
version = "0.1.0"
edition = "2021"
publish = false

[dependencies]
actix-web = "4"
clap = { version = "4", features = ["derive"] }
dirs = "*"
notify = "*"
pulldown-cmark = "*"
