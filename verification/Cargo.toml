[package]
name = "pontifex_conformance"
version = "0.1.0"
edition = "2021"
publish = false

[dependencies]
jsonschema = { version = "=0.60.2", default-features = false, features = ["idna"] }
serde = "=1.0.229"
serde_json = "=1.0.154"
