[package]
name = "forest_car"
version = "0.1.0"
edition = "2021"
publish = false

[dependencies]
ahash = "=0.8.12"
anyhow = "=1.0.104"
blake2b_simd = "=1.0.5"
bls-signatures = { version = "=0.15.0", default-features = false, features = ["blst", "multicore"] }
byteorder = "=1.5.0"
bytes = "=1.12.1"
cid = "=0.11.3"
futures = "=0.3.34"
fvm_ipld_blockstore = "0.3"
fvm_ipld_encoding = "0.5"
fvm_shared = { version = "=4.7.5", features = ["crypto"] }
integer-encoding = "=4.1.0"
ipld-core = "=0.4.3"
itertools = "=0.14.0"
keccak-hash = "=0.11.0"
libsecp256k1 = "=0.7.2"
num-bigint = "=0.4.8"
nunny = { version = "=0.2.2", features = ["serde"] }
serde = { version = "=1.0.229", features = ["derive"] }
serde_ipld_dagcbor = "=0.6.4"
serde_tuple = "1"
thiserror = "=2.0.21"
tokio = { version = "=1.54.1", features = ["io-util"] }
tokio-util = { version = "=0.7.20", features = ["codec"] }
unsigned-varint = { version = "=0.8.0", features = ["codec"] }
zstd = "=0.13.4"
