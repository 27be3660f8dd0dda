[package]
name = "gph"
version = "0.1.0"
edition = "2021"
publish = false

[dependencies]
base64 = "=0.23.1"
mermaid-rs-renderer = { version = "=0.3.1", default-features = false }
merman = { version = "=0.9.3", default-features = false, features = ["all-diagrams", "complete-svg", "png", "jpeg", "pdf"] }
clap = { version = "=4.6.7", features = ["derive"] }
crossterm = { version = "=0.29.0", default-features = false, features = ["events"] }
ratatui = { version = "=0.30.2", default-features = false, features = ["crossterm"] }
notify = { version = "=8.2.1", default-features = false }
tokio = { version = "=1.54.1", features = ["rt", "net", "time", "io-util", "io-std"] }
tower-lsp-server = "=0.23.0"
