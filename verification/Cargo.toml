[package]
name = "mdls"
version = "0.1.0"
edition = "2021"
publish = false

[dependencies]
pulldown-cmark = "0.9"
dissimilar = "1"
lsp-server = "*"
lsp-types = "*"
serde_json = "1"
crossbeam-channel = "*"
tracing = "*"
tracing-appender = "*"
tracing-subscriber = "*"
