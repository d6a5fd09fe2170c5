[package]
name = "qumbra_wallet"
version = "0.1.0"
edition = "2021"
publish = false

[dependencies]
bincode = "1"
qrcode = { version = "0.14", default-features = false }
rand = "0.10"
rustls = { version = "0.23", default-features = false, features = ["ring", "std", "tls12"] }
serde_json = "1"
webpki-roots = "1"
zeroize = "1"
