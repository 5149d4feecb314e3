[package]
name = "agave"
version = "0.1.0"
edition = "2021"
publish = false

[dependencies]
bv = { version = "=0.11.1", features = ["serde"] }
flate2 = "=1.0.35"
indexmap = "=2.14.2"
lru = "=0.7.8"
siphasher = "=0.3.11"
bincode = "=1.3.3"
serde = { version = "=1.0.229", features = ["derive"] }
serde_json = "=1.0.154"
semver = "=1.0.28"
rand = "=0.8.8"
num_cpus = "=1.17.0"
clap = "=2.34.0"
log = "=0.4.35"
