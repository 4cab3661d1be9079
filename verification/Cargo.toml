[package]
name = "rorolala"
version = "0.1.0"
edition = "2021"
publish = false

[dependencies]
lz4 = "=1.28.1"
zstd = "=0.14.3"
blake3 = "=1.8.7"
sha2 = "=0.11.1"
ed25519-dalek = { version = "=2.2.0", features = ["pkcs8", "pem"] }
x25519-dalek = { version = "=2.0.1", features = ["getrandom", "static_secrets"] }
chacha20poly1305 = "=0.11.0"
hkdf = "=0.13.0"
ml-kem = { version = "=0.3.4", features = ["getrandom"] }
toml = "1.1.8"
size = "=0.6.0"
serde = { version = "=1.0.229", features = ["derive"] }
serde_json = "=1.0.154"
bincode2 = "=2.0.1"
tokio = { version = "=1.54.1", features = ["rt", "rt-multi-thread", "io-util", "fs", "net", "sync", "macros", "time", "signal"] }
dirs = "=7.0.0"
