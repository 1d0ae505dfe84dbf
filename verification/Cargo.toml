[package]
name = "uprtcl"
version = "0.1.0"
edition = "2021"
publish = false

[dependencies]
cid = "0.5"
multihash = "0.11"
multibase = "0.8"
serde_cbor = "0.11"
serde_json = "1"
