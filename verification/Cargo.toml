[package]
name = "op_pool"
version = "0.1.0"
edition = "2021"
publish = false

[dependencies]
ethers-core = "*"
tokio = { version = "*", features = ["rt", "time", "io-util", "macros"] }
futures = "*"
tokio-util = { version = "*", features = ["codec", "compat"] }
tokio-io-timeout = "*"
tonic = "*"
tonic-types = "*"
prost = "*"
prost-types = "*"
