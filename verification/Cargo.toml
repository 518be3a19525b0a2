[package]
name = "floodchat"
version = "0.1.0"
edition = "2021"
publish = false

[dependencies]
libp2p = { version = "0.53", default-features = false, features = ["async-std", "tcp", "noise", "yamux", "mdns", "floodsub", "macros", "ed25519"] }
async-std = "1"
futures = "0.3"
