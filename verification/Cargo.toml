[package]
name = "clarity"
version = "0.1.0"
edition = "2021"
publish = false

[dependencies]
x25519-dalek = { version = "2", features = ["static_secrets"] }
ed25519-dalek = { version = "2", features = ["rand_core"] }
ml-kem = "0.2"
chacha20poly1305 = "0.10"
hkdf = "0.12"
hmac = "0.12"
sha2 = "0.10"
getrandom = "0.2"
rand_core = { version = "0.6", features = ["getrandom"] }
zeroize = "1"
base64 = "0.22"
serde = { version = "1", features = ["derive"] }
serde_json = "1"
bincode = "1"
thiserror = "1"
tiny_http = "0.12"
ureq = { version = "2", features = ["json", "socks-proxy"] }
openmls = "0.6"
openmls_rust_crypto = "0.3"
openmls_basic_credential = "0.3"
tls_codec = "0.4"
