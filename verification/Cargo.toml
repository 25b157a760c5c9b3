[package]
name = "ublk-azblob"
version = "0.1.0"
edition = "2021"
publish = false

[dependencies]
anyhow = "1"
async-trait = "0.1"
azure_core = "*"
azure_identity = "*"
azure_storage_blob = "*"
base64 = "0.22"
bytes = "1"
clap = { version = "4", features = ["derive", "env"] }
futures = "0.3"
hmac-sha256 = "1"
k8s-openapi = { version = "*", features = ["latest"] }
kube = { version = "*", default-features = false, features = ["client", "rustls-tls"] }
leaky-bucket = "1"
libc = "0.2"
libublk = "*"
serde = { version = "1", features = ["derive"] }
serde_json = "1"
tar = "0.4"
time = { version = "0.3", features = ["formatting", "macros"] }
tokio = { version = "1", features = ["full"] }
tracing = "0.1"
tracing-subscriber = { version = "0.3", features = ["env-filter"] }
async-priority-channel = "*"
tonic = "*"
tokio-stream = { version = "0.1", features = ["net"] }
