[package]
name = "mmr_log"
version = "0.1.0"
edition = "2021"
publish = false

[dependencies]
miden-crypto = "=0.22.6"
anyhow = "*"
async-trait = "*"
axum = "*"
clap = { version = "*", features = ["derive"] }
http-body-util = "*"
reqwest = { version = "*", default-features = false, features = ["json"] }
serde = { version = "*", features = ["derive"] }
serde_json = "*"
tokio = { version = "*", features = ["full"] }
tower = { version = "*", features = ["util"] }
