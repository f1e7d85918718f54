[package]
name = "pop3_codec"
version = "0.1.0"
edition = "2021"
publish = false

[dependencies]
abnf-core = "*"
md5 = "0.7"
nom = "7"
serde = { version = "1", features = ["derive"] }
