[package]
name = "transaction_pool"
version = "0.1.0"
edition = "2021"
publish = false

[dependencies]
error-chain = { version = "=0.12.4", default-features = false }
log = "=0.4.34"
