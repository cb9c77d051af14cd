[package]
name = "pepper_sync"
version = "0.1.0"
edition = "2021"
publish = false

[dependencies]
bip32 = "=0.6.0"
byteorder = "=1.5.0"
incrementalmerkletree = "=0.9.0"
json = "=0.12.4"
jubjub = "=0.11.1"
lightwallet-protocol = "=0.4.0"
orchard = "=0.16.0"
sapling-crypto = "=0.9.0"
shardtree = "=0.8.0"
subtle = "=2.6.1"
tokio = { version = "=1.54.1", features = ["sync", "time", "rt", "macros"] }
tonic = "=0.14.9"
zcash_address = "=0.14.0"
zcash_client_backend = { version = "=0.25.0", features = ["lightwalletd-tonic", "orchard", "transparent-inputs", "unstable-serialization"] }
zcash_encoding = "=0.5.0"
zcash_keys = { version = "=0.17.0", features = ["transparent-inputs", "sapling", "orchard"] }
zcash_note_encryption = "=0.5.1"
zcash_primitives = "=0.31.0"
zcash_protocol = { version = "=0.11.0", features = ["local-consensus"] }
zcash_script = "=0.6.0"
zcash_transparent = { version = "=0.11.0", features = ["transparent-inputs"] }
zip32 = "=0.3.0"
