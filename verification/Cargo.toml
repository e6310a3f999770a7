[package]
name = "garbled_circuit"
version = "0.1.0"
edition = "2021"
publish = false

[dependencies]
base64 = "0.22"
blake3 = { version = "1", default-features = false, features = ["pure", "std"] }
curve25519-dalek = { version = "4", features = ["rand_core"] }
egg = "0.9"
fernet = { version = "0.2", default-features = false, features = ["rustcrypto"] }
hmac = "0.12"
rand = "0.8"
rayon = "1"
serde = { version = "1", features = ["derive"] }
serde_json = "1"
sha2 = "0.10"
