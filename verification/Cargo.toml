[package]
name = "weirdns"
version = "0.1.0"
edition = "2021"
publish = false

[dependencies]
anyhow = "1"
argh = "*"
async-executor = "1"
async-io = "2"
async-net = "2"
fqdn = "*"
fqdn-trie = "*"
futures-lite = "2"
hickory-proto = "*"
serde = { version = "1", features = ["derive"] }
simple-dns = "*"
smol = "2"
toml = "*"
