[package]
name = "clawhdf5_format"
version = "2.1.0"
edition = "2021"
publish = false

[dependencies]
sha2 = "0.10"
blake3 = "1"
k12 = "0.3"
hmac = "0.12"
rand_core = { version = "0.6", features = ["getrandom"] }
ed25519-dalek = { version = "2", default-features = false, features = ["rand_core", "zeroize"] }
rayon = "1"
flate2 = "1"
lz4_flex = "0.11"
zstd = "0.13"
aws-config = { version = "1", default-features = false, features = ["rt-tokio"] }
aws-sdk-s3 = { version = "1", default-features = false, features = ["rt-tokio"] }
