[package]
name = "committer"
version = "0.1.0"
edition = "2021"
publish = false

[dependencies]
starknet-types-core = { version = "=1.0.0", features = ["hash"] }
ethnum = "=1.5.3"
bisection = "=0.1.0"
rand = "=0.8.8"
serde = { version = "=1.0.229", features = ["derive"] }
serde_json = "=1.0.154"
thiserror = "=1.0.69"
pathfinder-crypto = "*"
