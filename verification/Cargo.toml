[package]
name = "helix_views"
version = "0.1.0"
edition = "2021"
publish = false

[dependencies]
ropey = { version = "=1.6.1", default-features = false, features = ["simd"] }
unicode-segmentation = "=1.13.3"
unicode-width = "=0.1.12"
slotmap = "=1.1.1"
nucleo = "=0.5.0"
globset = "=0.4.21"
regex-cursor = "=0.1.5"
tree-house = { version = "=0.4.0", default-features = false }
kstring = "=2.0.2"
toml = "=0.9.12"
serde = { version = "=1.0.229", features = ["derive"] }
ignore = "=0.4.34"
notify = "=8.2.1"
tokio = { version = "=1.54.1", features = ["rt", "time", "sync", "macros"] }
anyhow = "=1.0.104"
tempfile = "=3.27.0"
