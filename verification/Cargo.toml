[package]
name = "rsigma"
version = "0.1.0"
edition = "2021"
publish = false

[dependencies]
daachorse = "*"
serde = { version = "*", features = ["derive"] }
serde_json = "*"
yaml_serde = "*"
thiserror = "*"
clap = { version = "*", features = ["derive"] }
tracing = "*"
log = "*"
schemars = "*"
rmcp = { version = "*", features = ["server", "macros"] }

[dev-dependencies]
tempfile = "*"
