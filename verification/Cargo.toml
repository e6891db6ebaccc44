[package]
name = "oc_rsync"
version = "0.1.0"
edition = "2021"
publish = false

[dependencies]
globset = "*"
thiserror = "*"
tracing = "*"

[dev-dependencies]
tempfile = "*"
