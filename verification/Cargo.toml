[package]
name = "debank_trace"
version = "0.1.0"
edition = "2021"
publish = false

[dependencies]
hex = "0.4"
md-5 = "0.10"
sha1 = "0.10"
num-bigint = "0.4"
keccak-hash = "*"
rlp = "*"
rlp-derive = "*"
serde = { version = "1", features = ["derive"] }
serde_json = "1"
