[package]
name = "event_abi"
version = "0.1.0"
edition = "2021"
publish = false

[dependencies]
tiny-keccak = { version = "2", features = ["keccak"] }
const-hex = "1"
syn-solidity = "*"
syn = { version = "2", features = ["full"] }
quote = "1"
proc-macro2 = "1"
