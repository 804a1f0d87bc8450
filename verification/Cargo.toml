[package]
name = "sun_rpc_client"
version = "0.1.0"
edition = "2021"
publish = false

[dependencies]
chrono = "0.4"
clap = { version = "4", features = ["derive"] }
derive_more = "0.99"
hex = "0.4"
indicatif = "0.17"
nfs4 = "*"
serde = { version = "1", features = ["derive"] }
serde-xdr = "*"
sun_rpc = "*"
