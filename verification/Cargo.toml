[package]
name = "uniqfiles"
version = "0.1.0"
edition = "2021"
publish = false

[dependencies]
md5 = "0.7"
clap = { version = "4", features = ["derive"] }
rayon = "1"
