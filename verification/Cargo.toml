[package]
name = "ghostdrive"
version = "0.1.0"
edition = "2021"
publish = false

[dependencies]
async-stream = "*"
base64 = "*"
blake3 = "*"
bytes = "*"
futures-core = "*"
mime_guess = "*"
notify = { version = "*", default-features = false }
rand = "*"
redb = "*"
tokio = { version = "*", default-features = false, features = ["rt-multi-thread", "macros", "sync", "time", "fs", "io-util", "process"] }
tokio-util = "*"

[dev-dependencies]
serde_json = "*"
