[package]
name = "sandpile"
version = "0.1.0"
edition = "2021"
publish = false

[dependencies]
toodee = "*"
rand = "0.8"
clap = { version = "3", features = ["derive"] }
colored = "2"
gif = "*"
png = "*"
speedy2d = "*"
