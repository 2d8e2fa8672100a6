[package]
name = "openakb-validate"
version = "0.1.0"
edition = "2021"
publish = false

[dependencies]
async-trait = "=0.1.92"
base64 = "=0.22.1"
fluent-uri = "=0.4.1"
jsonschema = { version = "=0.60.2", default-features = false }
pulldown-cmark = { version = "=0.13.6", default-features = false }
regex = "=1.13.1"
serde = { version = "=1.0.229", features = ["derive"] }
serde_json = { version = "=1.0.154", features = ["unbounded_depth"] }
sha2 = "=0.10.9"
thiserror = "=2.0.21"
tokio = { version = "=1.54.1", features = ["fs", "rt", "macros"] }

[dev-dependencies]
serde_json = "=1.0.154"
