[package]
name = "hyperv-rdp-extras"
version = "0.1.0"
edition = "2021"
publish = false

[dependencies]
anyhow = "1"
nix = { version = "0.29", features = ["poll"] }
tokio = { version = "1", features = ["rt", "sync", "time"] }
tracing = "0.1"
wayland-client = "0.31"
wayland-protocols-plasma = { version = "0.3", features = ["client"] }
