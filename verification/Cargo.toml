[package]
name = "tomldir"
version = "0.1.0"
edition = "2021"
publish = false

[dependencies]
toml = { version = "=1.1.7", features = ["preserve_order"] }
indexmap = "=2.14.2"
thiserror = "=2.0.21"
