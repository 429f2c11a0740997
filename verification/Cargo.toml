[package]
name = "verlet_tools"
version = "0.1.0"
edition = "2021"
publish = false

[dependencies]
globset = "0.4"
grep-regex = "0.1"
grep-searcher = "0.1"
ignore = "0.4"
serde = { version = "1", features = ["derive"] }
serde_json = "1"
thiserror = "2"
