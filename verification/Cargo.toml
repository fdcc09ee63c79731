[package]
name = "gitty"
version = "0.1.0"
edition = "2021"
publish = false

[dependencies]
byteorder = "1"
clap = { version = "4", features = ["derive"] }
compress = "0.2"
hex = "0.4"
