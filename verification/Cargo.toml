[package]
name = "netframe"
version = "0.1.0"
edition = "2021"
publish = false

[dependencies]
bcrypt = "*"
openssl = "*"
mio = { version = "*", features = ["net", "os-poll"] }
