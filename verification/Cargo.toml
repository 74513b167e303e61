[package]
name = "znx"
version = "0.1.0"
edition = "2021"
publish = false

[dependencies]
argon2 = { version = "0.5", default-features = false, features = ["alloc", "std"] }
async-trait = "0.1"
bech32 = "0.11"
blake3 = "1"
borsh = "1"
chacha20poly1305 = "0.10"
chrono = { version = "0.4", default-features = false, features = ["std"] }
clap = { version = "4", default-features = false, features = ["std", "help", "usage", "error-context", "derive", "env"] }
ed25519-dalek = { version = "3", features = ["rand_core", "zeroize"] }
futures = "0.3"
getrandom = { version = "0.4", features = ["sys_rng"] }
hex = "0.4"
jsonrpsee = { version = "0.26", features = ["server"] }
jsonrpsee-core = { version = "0.26", features = ["client"] }
jsonrpsee-http-client = { version = "0.26", default-features = false }
libp2p = { version = "0.56", features = ["tokio", "tcp", "noise", "yamux", "gossipsub", "request-response", "macros"] }
num-bigint = "0.4"
rand_core = "0.10"
reqwest = { version = "0.13", default-features = false, features = ["json"] }
rpassword = "7"
serde = { version = "1", features = ["derive"] }
serde_json = "1"
tempfile = "3"
thiserror = "2"
tokio = { version = "1", features = ["macros", "process", "rt-multi-thread", "signal", "sync", "time"] }
zeroize = "1"
