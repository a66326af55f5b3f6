[package]
name = "nian-workspace"
version = "0.2.0"
edition = "2021"
publish = false

[dependencies]
anyhow = "1"
axum = "0.8"
clap = { version = "4", features = ["derive"] }
globset = "=0.4.21"
grep-regex = "=0.1.14"
grep-searcher = "=0.1.17"
libc = "0.2"
regex = "=1.13.1"
rmcp = { version = "=3.8.0", features = ["server", "macros", "schemars", "transport-io", "transport-streamable-http-server"] }
same-file = "1"
serde = { version = "1", features = ["derive"] }
serde_json = "1"
tokio = { version = "1", features = ["full"] }
tokio-util = "0.7"
toml = "=1.1.8"
tracing = "0.1"
tracing-subscriber = { version = "0.3", features = ["env-filter"] }
walkdir = "2"
windows-sys = { version = "0.61", features = ["Win32_Foundation", "Win32_Security", "Win32_System_JobObjects", "Win32_System_Threading"] }

[dev-dependencies]
tempfile = "3"
