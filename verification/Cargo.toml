[package]
name = "nullbox"
version = "0.1.0"
edition = "2021"
publish = false

[dependencies]
hex = "*"
ring = "*"
sha2 = "*"
serde = { version = "*", features = ["derive"] }
serde_json = "*"
toml = "*"
nix = { version = "*", features = ["signal", "process", "mount", "fs", "reboot"] }
thiserror = "*"
rusqlite = { version = "*", features = ["bundled"] }
