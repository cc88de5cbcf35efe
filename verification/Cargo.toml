[package]
name = "libsql_wal"
version = "0.1.0"
edition = "2021"
publish = false

[dependencies]
aes = "*"
cbc = "*"
serde = { version = "*", features = ["derive"] }

[dev-dependencies]
hmac = "*"
sha2 = "*"
