[package]
name = "trusty"
version = "0.1.0"
edition = "2021"
publish = false

[dependencies]
magic-crypt = "*"
uuid = { version = "*", features = ["v4"] }
unicode-segmentation = "*"
rusqlite = { version = "*", features = ["bundled"] }
clap = { version = "*", features = ["derive"] }
edit = "*"
rpassword = "*"
