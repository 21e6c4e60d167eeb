[package]
name = "mops_core"
version = "0.1.0"
edition = "2021"
publish = false

[dependencies]
semver = "=1.0.28"
serde_json = "=1.0.151"
serde = { version = "1", features = ["derive"] }
anyhow = "1"
reqwest = { version = "=0.12.28", default-features = false }
futures = "=0.3.34"
toml_edit = "=0.25.15"
candid = "=0.10.37"
ic-agent = { version = "=0.49.2", default-features = false }
console = "=0.16.6"
indicatif = "=0.18.6"
