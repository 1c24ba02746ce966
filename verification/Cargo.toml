[package]
name = "quantum_ide"
version = "0.1.0"
edition = "2021"
publish = false

[dependencies]
ropey = "1.6"
thiserror = "1"
anyhow = "1"
cosmic-text = "0.11"
bytemuck = { version = "1", features = ["derive"] }
tracing = "0.1"
tracing-subscriber = { version = "0.3", features = ["env-filter"] }
