[package]
name = "wad"
version = "0.1.0"
edition = "2021"
publish = false

[dependencies]
byteorder = "1"
num-traits = "0.2"
serde = "1"
thiserror = "1"
zip = { version = "*", default-features = false, features = ["deflate"] }
