[package]
name = "zns_resolver"
version = "0.1.0"
edition = "2021"
publish = false

[dependencies]
anyhow = "1"
clap = { version = "4", features = ["derive"] }
futures = "0.3"
group = "=0.14.0"
hex = "=0.4.3"
jsonrpsee = { version = "=0.26.1", features = ["server", "macros", "http-client"] }
orchard = "=0.16.0"
pasta_curves = "=0.6.1"
rusqlite = { version = "0.32", features = ["bundled"] }
rustls = "0.23"
seer-sync = { version = "=0.8.0", features = ["zns-decrypt"] }
serde = { version = "1", features = ["derive"] }
serde_json = "1"
sha2 = "=0.10.9"
thiserror = "2"
tokio = { version = "1", features = ["full"] }
tokio-rusqlite = "0.6"
tonic = { version = "=0.14.9", default-features = false, features = ["transport", "tls-ring", "tls-webpki-roots"] }
tracing = "0.1"
tracing-subscriber = { version = "0.3", features = ["env-filter"] }
zcash_keys = { version = "=0.17.0", features = ["orchard"] }
zcash_note_encryption = "=0.5.1"
zcash_primitives = "=0.31.0"
zcash_protocol = { version = "=0.11.0", features = ["local-consensus"] }
zns-verify = { version = "=0.2.0", features = ["decrypt"] }

[dev-dependencies]
rand_core = "=0.10.1"
