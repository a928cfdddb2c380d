[package]
name = "matrix_service"
version = "0.1.0"
edition = "2021"
publish = false

[dependencies]
anyhow = "*"
byteorder = "*"
bytes = "*"
prost = "*"
tokio = { version = "*", features = ["io-util", "macros", "net", "rt-multi-thread"] }
