[package]
name = "changepacks"
version = "0.1.0"
edition = "2021"
publish = false

[dependencies]
serde = { version = "=1.0.229", features = ["derive"] }
serde_json = "=1.0.154"
glob = "=0.3.4"
ignore = "=0.4.34"
toml_edit = "=0.25.17"
colored = "=3.1.1"
anyhow = "=1.0.104"
async-trait = "=0.1.92"
futures = "=0.3.34"
tokio = { version = "=1.54.1", features = ["fs", "macros", "rt"] }
gix = { version = "=0.90.0", default-features = false, features = ["status", "revision", "blob-diff", "sha1"] }
