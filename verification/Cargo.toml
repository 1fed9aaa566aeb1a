[package]
name = "stemwatch"
version = "0.1.0"
edition = "2021"
publish = false

[dependencies]
globset = "0.4"
serde = { version = "1", features = ["derive"] }
serde_json = "1"
toml = "0.8"
tokio = { version = "1", features = ["full"] }
axum = { version = "0.7", features = ["ws"] }
notify-debouncer-full = "0.3"
anyhow = "1"
hound = "3"
memmap2 = "0.9"
symphonia = "0.5"
atomic_float = "1"

[dev-dependencies]
tempfile = "3"
