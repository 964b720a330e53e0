[package]
name = "sweat_claim"
version = "0.1.0"
edition = "2021"
publish = false

[dependencies]
near-sdk = { version = "=5.29.1", features = ["non-contract-usage", "unit-testing"] }
serde_json = "=1.0.151"
