[package]
name = "inazuma"
version = "0.1.0"
edition = "2021"
publish = false

[dependencies]
ark-bn254 = "=0.4.0"
ark-ff = "=0.4.2"
ark-groth16 = "=0.4.0"
ark-r1cs-std = "=0.4.0"
ark-relations = "=0.4.0"
ark-serialize = "=0.4.2"
ark-std = "=0.4.0"
bs58 = "=0.5.1"
chacha20poly1305 = "=0.10.1"
ed25519-dalek = "=2.2.0"
getrandom = "=0.2.17"
hex = "=0.4.3"
hkdf = "=0.12.4"
qrcode = "=0.14.1"
serde = { version = "=1.0.229", features = ["derive"] }
serde_json = { version = "=1.0.154", features = ["preserve_order"] }
sha2 = "=0.10.9"
sled = "=0.34.7"
ureq = { version = "=2.12.1", features = ["json"] }
wasmi = "=0.31.2"
wat = "=1.263.0"
x25519-dalek = { version = "=2.0.1", features = ["static_secrets"] }
