[package]
name = "kale"
version = "0.1.0"
edition = "2021"
publish = false

[dependencies]
sha3 = "=0.12.0"
anyhow = "*"
axum = "*"
hex = "=0.4.3"
reqwest = { version = "*", default-features = false, features = ["json", "rustls-tls"] }
serde = { version = "*", features = ["derive"] }
serde_json = "*"
stellar-rpc-client = "=28.0.0"
stellar-strkey = "=0.0.18"
stellar-xdr = { version = "=28.0.1", features = ["std", "base64"] }
tokio = { version = "*", features = ["macros", "rt-multi-thread", "net", "time", "sync"] }
tower-http = { version = "*", features = ["fs"] }

[dev-dependencies]
base64 = "=0.22.1"
