[package]
name = "qownnotes_tui"
version = "0.7.0"
edition = "2021"
publish = false

[dependencies]
anyhow = "=1.0.104"
arboard = { version = "=3.7.0", default-features = false }
chrono = "=0.4.45"
clap = { version = "=4.6.7", features = ["derive", "env"] }
clap_complete = "=4.6.11"
crossterm = "=0.28.1"
directories = "=6.0.0"
ignore = "=0.4.34"
percent-encoding = "=2.3.2"
ratatui = { version = "=0.29.0", features = ["unstable-rendered-line-info"] }
regex = "=1.13.1"
rusqlite = { version = "=0.32.1", features = ["bundled"] }
serde = { version = "=1.0.229", features = ["derive"] }
thiserror = "=2.0.21"
toml = "=0.8.23"
tracing = "=0.1.44"
tracing-subscriber = { version = "=0.3.23", features = ["env-filter"] }
trash = "=5.2.9"
unicode-segmentation = "=1.13.3"

[dev-dependencies]
tempfile = "=3.27.0"
