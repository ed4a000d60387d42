[package]
name = "codex_managed_channel"
version = "0.1.0"
edition = "2021"
publish = false

[dependencies]
anyhow = "1"
libc = "0.2"
serde_json = "1"
