[package]
name = "mksfx"
version = "0.1.0"
edition = "2021"
publish = false

[dependencies]
byteorder = "1"
clap = { version = "4", features = ["derive"] }
colored = "2"
hound = "3"
libc = "0.2"
serde = { version = "1", features = ["derive"] }
serde_yaml = "0.9"
