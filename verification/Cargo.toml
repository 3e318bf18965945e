[package]
name = "cape"
version = "0.1.0"
edition = "2021"
publish = false

[dependencies]
aes-gcm = "=0.10.3"
argon2 = "=0.5.3"
blake3 = "=1.8.7"
hkdf = "=0.12.4"
sha3 = "=0.10.9"
pqcrypto-mlkem = "=0.1.1"
pqcrypto-mldsa = "=0.1.2"
pqcrypto-traits = "=0.3.5"
rand = "=0.8.8"
zeroize = "=1.9.1"
sled = "=0.34.7"
bincode = "=1.3.3"
serde = { version = "=1.0.229", features = ["derive"] }
serde_json = "=1.0.154"
clap = { version = "=4.6.7", features = ["derive"] }
anyhow = "=1.0.104"
thiserror = "=1.0.69"
eframe = { version = "0.31", default-features = false, features = ["default_fonts", "glow", "x11"] }
