[package]
name = "epaxos"
version = "0.1.0"
edition = "2021"
publish = false

[dependencies]
prost = "0.6"
tonic = { version = "0.2", default-features = false }
