[package]
name = "vrc_get"
version = "0.1.0"
edition = "2021"
publish = false

[dependencies]
semver = "=1.0.28"
sha2 = "=0.10.9"
serde = { version = "=1.0.229", features = ["derive"] }
serde_json = "=1.0.154"
clap = { version = "=4.6.7", features = ["derive"] }
indexmap = { version = "=2.14.2", features = ["serde"] }
sys-locale = "=0.3.2"
object = { version = "=0.36.7", default-features = false, features = ["read", "std"] }
reqwest = { version = "=0.12.28", default-features = false, features = ["blocking"] }
zip = { version = "=2.6.1", default-features = false, features = ["deflate"] }
uuid = { version = "=1.29.0", features = ["v4"] }
url = "=2.5.8"
