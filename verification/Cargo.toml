[package]
name = "ledger_node"
version = "0.1.0"
edition = "2021"
publish = false

[dependencies]
sha2 = "0.10"
rand = "0.8"
rayon = "1"
serde = { version = "1", features = ["derive"] }
serde_json = "1"
derive_more = "0.99"
tokio = { version = "1", features = ["macros", "rt-multi-thread", "sync", "time"] }
libp2p = { version = "*", features = ["floodsub", "macros", "mdns", "noise", "tcp", "tokio", "yamux"] }
dialoguer = "0.11"
clearscreen = "2"
