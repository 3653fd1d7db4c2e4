[package]
name = "crap_analyzer"
version = "0.1.0"
edition = "2021"
publish = false

[dependencies]
serde = { version = "=1.0.229", features = ["derive"] }
serde_json = "=1.0.154"
syn = { version = "=2.0.119", features = ["full", "visit", "parsing", "extra-traits"] }
proc-macro2 = { version = "=1.0.107", features = ["span-locations"] }
