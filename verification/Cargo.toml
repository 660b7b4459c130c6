[package]
name = "kx_gateway"
version = "0.1.0"
edition = "2021"
publish = false

[dependencies]
getrandom = "*"
sha2 = "*"
base64 = "*"
serde_json = "*"
bytes = "*"
http = "*"
http-body-util = "*"
hyper = { version = "*", features = ["server", "http1"] }
hyper-util = { version = "*", features = ["tokio"] }
tokio = { version = "*", features = ["net", "rt", "macros"] }
tonic = "*"
