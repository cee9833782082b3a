[package]
name = "interliquid-sdk"
version = "0.1.0"
edition = "2021"
publish = false

[dependencies]
anyhow = "=1.0.104"
borsh = { version = "=1.8.1", features = ["derive"] }
borsh-derive = "=1.8.1"
thiserror = "=1.0.69"
crypto-bigint = "=0.5.5"
sha2 = "=0.10.9"
p256 = { version = "=0.13.2", features = ["ecdsa"] }
ecdsa = { version = "=0.16.9", default-features = false }
sec1 = { version = "=0.7.3", default-features = false }
