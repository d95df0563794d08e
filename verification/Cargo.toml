[package]
name = "tectonicdb"
version = "0.1.0"
edition = "2021"
publish = false

[dependencies]
byteorder = "1"
chrono = "0.4"
clap = "3.2"
config = { version = "0.13", default-features = false, features = ["toml"] }
fern = "0.6"
indoc = "1"
log = "0.4"
