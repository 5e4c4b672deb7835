[package]
name = "hamt_rs"
version = "0.1.0"
edition = "2021"
publish = false

[dependencies]
anyhow = "=1.0.104"
bincode = "=1.3.3"
cid = "=0.7.0"
futures = "=0.3.34"
ipfs-api-backend-hyper = "=0.5.0"
minicbor = { version = "=0.12.1", features = ["std"] }
multihash = "=0.14.0"
num_cpus = "=1.17.0"
rayon = "=1.12.0"
serde_json = "=1.0.154"
sled = "=0.34.7"
structopt = "=0.3.26"
thiserror = "=1.0.69"
tokio = { version = "=1.54.1", features = ["macros", "rt-multi-thread"] }
unsigned-varint = "=0.7.2"
