[package]
name = "axe_chain"
version = "0.1.0"
edition = "2021"
publish = false

[dependencies]
sha256 = { version = "1", default-features = false }
hex = "0.4"
ciborium = "0.2"
serde = { version = "1", features = ["derive"] }
bigdecimal = "0.4"
chrono = { version = "0.4", features = ["serde"] }
ecdsa = { version = "0.16", features = ["signing", "verifying"] }
k256 = { version = "0.13", features = ["ecdsa"] }
uuid = { version = "1", features = ["v4", "serde"] }
thiserror = "1"
