[package]
name = "static_l10n"
version = "0.1.0"
edition = "2021"
publish = false

[dependencies]
proc-macro2 = { version = "=1.0.107", features = ["span-locations"] }
quote = "=1.0.47"
syn = { version = "=2.0.119", features = ["full"] }
toml = "=1.1.8"
serde = { version = "=1.0.229", features = ["derive"] }
