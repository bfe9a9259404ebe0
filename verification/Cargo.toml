[package]
name = "cargo-manage"
version = "0.1.0"
edition = "2021"
publish = false

[dependencies]
toml_edit = "0.22"
chrono = "0.4"
walkdir = "2"
clap = { version = "4", features = ["derive"] }
thiserror = "2"
tracing = "0.1"
tracing-subscriber = { version = "0.3", features = ["env-filter"] }

[dev-dependencies]
tempfile = "3"
