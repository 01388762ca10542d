[package]
name = "meta-call-lsp"
version = "0.1.0"
edition = "2021"
publish = false

[dependencies]
anyhow = "=1.0.104"
crossbeam-channel = "=0.5.17"
dunce = "=1.0.5"
lsp-server = "=0.10.0"
lsp-types = "=0.97.0"
meta-ast = { version = "=0.7.1", features = ["metacall-deploy"] }
serde = { version = "=1.0.229", features = ["derive"] }
serde_json = "=1.0.154"
thiserror = "=2.0.21"
tracing = "=0.1.44"
tracing-subscriber = { version = "=0.3.23", features = ["env-filter"] }
url = "=2.5.8"
