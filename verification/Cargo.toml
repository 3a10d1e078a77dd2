[package]
name = "staking-pool"
version = "0.1.0"
edition = "2021"
publish = false

[dependencies]
near-sdk = "=0.11.0"
borsh = "=0.6.2"
wee_alloc = "=0.4.5"

[dev-dependencies]
syn = "=1.0.57"
