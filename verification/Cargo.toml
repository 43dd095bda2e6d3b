[package]
name = "lit"
version = "0.1.0"
edition = "2021"
publish = false

[dependencies]
chrono = "0.4"
clap = { version = "4", features = ["derive"] }
indexmap = "2"
memchr = "2"
rand = "*"
sha1 = "0.10"
tempfile = "3"
